//! Deciding which keys to press: steering the cart under the boot, throwing a boot that has come to rest
//! and getting back one that is gone.

use crate::double;
use crate::platform::input;
use crate::platform::input::HeldKey;
use crate::platform::win32::Input;
use crate::single;
use crate::text;
use crate::tools::boot_breaker::args::Args;
use crate::tools::boot_breaker::track::BootTrack;
use vstd::prelude::*;
use vstd::string::*;

verus! {

/// 1.45 in single precision, in units of 2^-52: beyond this much of the dead zone the other key is held.
pub const SWITCH_ZONE: u128 = 6530219674435584;

/// 0.55 in single precision, in units of 2^-52: within this much of the dead zone the key is released.
pub const RELEASE_ZONE: u128 = 2476979848740864;

/// No error leaves a dead zone of this width, 2^50 pixels, in units of 2^-52.
pub const WIDEST_ZONE: u128 = 0x40_0000_0000_0000_0000_0000_0000;

/// Times before this one, 2^43 seconds, can be added. Times are in units of 2^-82 of a second.
pub const LATEST: u128 = 0x2000_0000_0000_0000_0000_0000_0000_0000;

/// What the tool did in a frame.
#[derive(Clone, Copy, Debug, PartialEq, Eq, Structural)]
pub enum Action {
    Idle,
    Left,
    Right,
    Space,
}

/// The letter of an action in status lines and logs.
pub open spec fn action_letter(a: Action) -> char {
    match a {
        Action::Idle => '-',
        Action::Left => 'A',
        Action::Right => 'D',
        Action::Space => 'S',
    }
}

impl Action {
    /// The letter of an action in status lines and logs.
    pub fn letter(self) -> (c: char)
        ensures
            c == action_letter(self),
    {
        match self {
            Action::Idle => '-',
            Action::Left => 'A',
            Action::Right => 'D',
            Action::Space => 'S',
        }
    }
}

/// How far the target is to the right of where the cart will be, in units of 2^-52: `lead` is what the
/// cart still moves.
pub open spec fn steer_error(target_x: int, cart_x: u128, lead: i128) -> int {
    single::signed(single::whole(target_x as nat) * single::ONE - single::signed(cart_x + lead))
}

/// The key to hold for an error. A key that is held is kept until the error is small or far on the other
/// side, so that the cart does not tremble.
pub open spec fn steer_key(held: HeldKey, error: int, deadzone: u128) -> HeldKey {
    let switch = single::product(deadzone as nat, SWITCH_ZONE as nat) as int;
    let release = single::product(deadzone as nat, RELEASE_ZONE as nat) as int;
    match held {
        HeldKey::D => if error < -switch {
            HeldKey::A
        } else if error > release {
            HeldKey::D
        } else {
            HeldKey::Neither
        },
        HeldKey::A => if error > switch {
            HeldKey::D
        } else if error < -release {
            HeldKey::A
        } else {
            HeldKey::Neither
        },
        HeldKey::Neither => if error > deadzone {
            HeldKey::D
        } else if error < -deadzone {
            HeldKey::A
        } else {
            HeldKey::Neither
        },
    }
}

/// The action that holding a key is.
pub open spec fn key_action(key: HeldKey) -> Action {
    match key {
        HeldKey::A => Action::Left,
        HeldKey::D => Action::Right,
        HeldKey::Neither => Action::Idle,
    }
}

/// The cart is steered towards the target: the key that is held afterwards, if any, is the one on its
/// side.
pub proof fn lemma_steers_towards(held: HeldKey, error: int, deadzone: u128)
    ensures
        steer_key(held, error, deadzone) is D ==> error > 0,
        steer_key(held, error, deadzone) is A ==> error < 0,
{
}

/// The key on the other side.
pub open spec fn mirrored(key: HeldKey) -> HeldKey {
    match key {
        HeldKey::A => HeldKey::D,
        HeldKey::D => HeldKey::A,
        HeldKey::Neither => HeldKey::Neither,
    }
}

/// Left and right are treated alike: for the mirrored key and error the mirrored key is held.
pub proof fn lemma_steering_mirrored(held: HeldKey, error: int, deadzone: u128)
    ensures
        steer_key(mirrored(held), -error, deadzone) == mirrored(steer_key(held, error, deadzone)),
{
}

/// A target far off is followed to its side whatever key is held: one beyond 145 % of the dead zone always, one
/// beyond the dead zone where no key is held, and one beyond 55 % of it where the key of its side is held
/// already. In all other cases no key is held. The shares of the dead zone hold to one part in a million
/// and one unit.
pub proof fn lemma_far_target_followed(held: HeldKey, error: int, deadzone: u128)
    ensures
        1_000_000 * error > 1_450_001 * deadzone + 1_000_000 ==> steer_key(held, error, deadzone) is D,
        -1_000_000 * error > 1_450_001 * deadzone + 1_000_000 ==> steer_key(held, error, deadzone) is A,
        held is Neither && error > deadzone ==> steer_key(held, error, deadzone) is D,
        held is Neither && -error > deadzone ==> steer_key(held, error, deadzone) is A,
        held is Neither && -deadzone <= error <= deadzone ==> steer_key(held, error, deadzone) is Neither,
        held is D && 1_000_000 * error > 550_001 * deadzone + 1_000_000 ==> steer_key(held, error, deadzone) is D,
        held is A && -1_000_000 * error > 550_001 * deadzone + 1_000_000 ==> steer_key(held, error, deadzone) is A,
        held is D && 1_000_000 * error < 549_999 * deadzone - 1_000_000 ==> !(steer_key(held, error, deadzone) is D),
        held is A && -1_000_000 * error < 549_999 * deadzone - 1_000_000 ==> !(steer_key(held, error, deadzone) is A),
        held is D && -1_000_000 * error < 1_449_999 * deadzone - 1_000_000 ==> !(steer_key(held, error, deadzone) is A),
        held is A && 1_000_000 * error < 1_449_999 * deadzone - 1_000_000 ==> !(steer_key(held, error, deadzone) is D),
{
    let one = 4503599627370496nat;
    let z = deadzone as nat;
    let n = z * (SWITCH_ZONE as nat);
    let m = z * (RELEASE_ZONE as nat);
    assert(n == 6530219674435584 * z);
    assert(m == 2476979848740864 * z);
    single::lemma_ratio_close(n, one);
    single::lemma_ratio_close(m, one);
    let s = single::nearest(n, one);
    let r = single::nearest(m, one);
    assert(s == single::product(z, SWITCH_ZONE as nat));
    assert(r == single::product(z, RELEASE_ZONE as nat));
    assert(s * one == 4503599627370496 * s);
    assert(r * one == 4503599627370496 * r);
    assert(1_000_000 * s <= 1_450_001 * z + 1_000_000);
    assert(1_000_000 * s + 1_000_000 >= 1_449_999 * z);
    assert(1_000_000 * r <= 550_001 * z + 1_000_000);
    assert(1_000_000 * r + 1_000_000 >= 549_999 * z);
}

/// The farther right the target, the farther right the key.
pub proof fn lemma_steering_ordered(held: HeldKey, error: int, more: int, deadzone: u128)
    requires
        error <= more,
    ensures
        steer_key(held, error, deadzone) is D ==> steer_key(held, more, deadzone) is D,
        steer_key(held, more, deadzone) is A ==> steer_key(held, error, deadzone) is A,
{
    lemma_steers_towards(held, error, deadzone);
    lemma_steers_towards(held, more, deadzone);
}

/// For whole columns the error is the number of columns from where the cart will be to the target, to the right
/// if positive.
pub proof fn lemma_steer_error_whole(target_x: int, column: int, ahead: int, cart_x: u128, lead: i128)
    requires
        0 <= target_x <= 0x40_0000,
        0 <= column <= 0x40_0000,
        -0x40_0000 <= ahead <= 0x40_0000,
        cart_x == column * 4503599627370496,
        lead == ahead * 4503599627370496,
    ensures
        steer_error(target_x, cart_x, lead) == (target_x - column - ahead) * 4503599627370496,
{
    single::lemma_whole_exact(target_x as nat);
    single::lemma_signed_whole(column + ahead);
    single::lemma_signed_whole(target_x - column - ahead);
}

/// What steering does.
pub struct Steering {
    pub action: Action,
    pub error: i128,
    pub events: Vec<Input>,
}

/// Steers the cart towards a target. Returns the action, the error and the events to send.
pub fn steer_to(target_x: i32, cart_x: u128, lead: i128, held: &mut HeldKey, deadzone: u128) -> (s: Steering)
    requires
        0 <= target_x,
        cart_x < 0x10_0000_0000_0000_0000_0000_0000,
        -0x10_0000_0000_0000_0000_0000_0000 < lead < 0x10_0000_0000_0000_0000_0000_0000,
    ensures
        s.error == steer_error(target_x as int, cart_x, lead),
        *final(held) == steer_key(*old(held), s.error as int, deadzone),
        s.action == key_action(*final(held)),
        s.events@ == input::switches(*old(held), *final(held)),
{
    proof {
        single::lemma_nearest_size(target_x as nat);
        let v = cart_x + lead;
        single::lemma_nearest_size(
            if v >= 0 {
                v as nat
            } else {
                (-v) as nat
            },
        );
    }
    let ahead: i128 = single::round_signed(cart_x as i128 + lead);
    let error: i128 = single::round_signed(single::round_ratio(target_x as u128, 1) as i128 * 4503599627370496 - ahead);
    let key = if deadzone >= WIDEST_ZONE {
        proof {
            lemma_widest_zone(target_x as int, cart_x, lead, deadzone, SWITCH_ZONE);
            lemma_widest_zone(target_x as int, cart_x, lead, deadzone, RELEASE_ZONE);
        }
        HeldKey::Neither
    } else {
        key_for(*held, error, deadzone)
    };
    let action = match key {
        HeldKey::A => Action::Left,
        HeldKey::D => Action::Right,
        HeldKey::Neither => Action::Idle,
    };
    let events = input::hold_key(held, key);
    Steering { action, error, events }
}

/// The key to hold for an error.
fn key_for(held: HeldKey, error: i128, deadzone: u128) -> (key: HeldKey)
    requires
        deadzone < WIDEST_ZONE,
    ensures
        key == steer_key(held, error as int, deadzone),
{
    let switch_zone: i128 = zone_of(deadzone, SWITCH_ZONE, 12163482, 0x2000_0000);
    let release_zone: i128 = zone_of(deadzone, RELEASE_ZONE, 9227469, 0x1000_0000);
    let dead: i128 = deadzone as i128;
    match held {
        HeldKey::D => {
            if error < -switch_zone {
                HeldKey::A
            } else if error > release_zone {
                HeldKey::D
            } else {
                HeldKey::Neither
            }
        },
        HeldKey::A => {
            if error > switch_zone {
                HeldKey::D
            } else if error < -release_zone {
                HeldKey::A
            } else {
                HeldKey::Neither
            }
        },
        HeldKey::Neither => {
            if error > dead {
                HeldKey::D
            } else if error < -dead {
                HeldKey::A
            } else {
                HeldKey::Neither
            }
        },
    }
}

/// A share of the dead zone. The share has `bits` as its significant bits, in units of `unit`.
fn zone_of(deadzone: u128, share: u128, bits: u128, unit: u128) -> (z: i128)
    requires
        deadzone < WIDEST_ZONE,
        0 < unit,
        unit * bits == share,
        bits < 0x100_0000,
        share < 2 * single::ONE,
        unit == 0x1000_0000 || unit == 0x2000_0000,
    ensures
        z == single::product(deadzone as nat, share as nat),
{
    let n: u128 = single::ONE / unit;
    proof {
        assert(deadzone * bits < 0x40_0000_0000_0000_0000_0000_0000 * 0x100_0000) by (nonlinear_arith)
            requires
                deadzone < 0x40_0000_0000_0000_0000_0000_0000,
                bits < 0x100_0000,
        ;
        assert(deadzone * share == unit * (deadzone * bits)) by (nonlinear_arith)
            requires
                unit * bits == share,
        ;
        single::lemma_nearest_multiplied((deadzone * bits) as nat, n as nat, unit as nat);
        assert(unit as nat * n as nat == single::ONE as nat);
        assert((deadzone as nat) * (share as nat) == unit as nat * ((deadzone * bits) as nat));
        assert(single::product(deadzone as nat, share as nat) == single::nearest((deadzone * bits) as nat, n as nat));
        let q = ((deadzone * share) as nat) / 4503599627370496nat;
        assert(q <= 2 * deadzone) by (nonlinear_arith)
            requires
                q == ((deadzone * share) as nat) / 4503599627370496nat,
                share <= 2 * 4503599627370496,
        ;
        single::lemma_nearest_at_most((deadzone * share) as nat, 4503599627370496);
        assert(single::product(deadzone as nat, share as nat) <= 4 * deadzone + 1);
    }
    single::round_ratio(deadzone * bits, n) as i128
}

/// The error is smaller than every share of a dead zone of the widest kind.
proof fn lemma_widest_zone(target_x: int, cart_x: u128, lead: i128, deadzone: u128, share: u128)
    requires
        0 <= target_x <= i32::MAX,
        cart_x < 0x10_0000_0000_0000_0000_0000_0000,
        -0x10_0000_0000_0000_0000_0000_0000 < lead < 0x10_0000_0000_0000_0000_0000_0000,
        WIDEST_ZONE <= deadzone,
        RELEASE_ZONE <= share,
    ensures
        -deadzone < steer_error(target_x, cart_x, lead) < deadzone,
        -single::product(deadzone as nat, share as nat) < steer_error(target_x, cart_x, lead)
            < single::product(deadzone as nat, share as nat),
{
    single::lemma_nearest_size(target_x as nat);
    let v = cart_x + lead;
    single::lemma_nearest_size(
        if v >= 0 {
            v as nat
        } else {
            (-v) as nat
        },
    );
    let e = single::whole(target_x as nat) * single::ONE - single::signed(v);
    single::lemma_nearest_size(
        if e >= 0 {
            e as nat
        } else {
            (-e) as nat
        },
    );
    let one = 4503599627370496nat;
    let n = (deadzone * share) as nat;
    assert(n >= 0x40_0000_0000_0000_0000_0000_0000nat * 2476979848740864nat) by (nonlinear_arith)
        requires
            n == deadzone * share,
            deadzone >= 0x40_0000_0000_0000_0000_0000_0000,
            share >= 2476979848740864,
    ;
    let q = n / one;
    let g = single::grain(q);
    single::lemma_nearest_error(n, one);
    single::lemma_grain_positive(q);
    assert(2 * n <= 2 * (single::nearest(n, one) * one) + one * g);
    assert(one * g <= 4503599627370496 * g);
}

/// What the tool waits for. Times are double-precision seconds since it was started; `next_rescue` is none where no
/// rescue is due.
#[derive(Clone, Copy, Debug, PartialEq, Eq, Structural)]
pub struct Timers {
    pub missing_since: Option<u128>,
    pub rescue_left: i32,
    pub next_rescue: Option<u128>,
    pub on_cart_since: Option<u128>,
    pub next_relaunch: u128,
}

/// When and how often the space bar is tapped for a boot that is gone.
#[derive(Clone, Copy, Debug, PartialEq, Eq, Structural)]
pub struct RescuePlan {
    pub delay: u128,
    pub taps: i32,
    pub interval: u128,
    pub cooldown: u128,
    pub off: bool,
}

/// 0.05 seconds: the least pause between two taps.
pub const LEAST_INTERVAL: u128 = 241785163922925848363008;

/// 0.18 seconds: how long a boot must lie on the cart before it is thrown.
pub const SETTLE_TIME: u128 = 870426590122532973576192;

/// 0.75 seconds: the least time between two throws.
pub const RELAUNCH_COOLDOWN: u128 = 3626777458843887524118528;

impl RescuePlan {
    /// The times can be added.
    pub open spec fn wf(self) -> bool {
        self.delay < LATEST && self.interval < LATEST && self.cooldown < LATEST
    }

    /// The pause between two taps of a rescue.
    pub open spec fn pause(self) -> u128 {
        if self.interval > LEAST_INTERVAL {
            self.interval
        } else {
            LEAST_INTERVAL
        }
    }

    /// The pause between two rescues, never shorter than that between taps.
    pub open spec fn rest(self) -> u128 {
        if self.cooldown > self.pause() {
            self.cooldown
        } else {
            self.pause()
        }
    }

    /// The plan of the settings.
    pub fn of(args: &Args) -> (p: Self)
        ensures
            p == (RescuePlan {
                delay: args.rescue_space_delay,
                taps: args.rescue_space_taps,
                interval: args.rescue_space_interval,
                cooldown: args.rescue_space_cooldown,
                off: args.no_rescue_space,
            }),
    {
        RescuePlan {
            delay: args.rescue_space_delay,
            taps: args.rescue_space_taps,
            interval: args.rescue_space_interval,
            cooldown: args.rescue_space_cooldown,
            off: args.no_rescue_space,
        }
    }
}

/// The first throw: not finished, failed or done.
#[derive(Clone, Copy, Debug, PartialEq, Eq, Structural)]
pub enum Startup {
    Running,
    Failed,
    Done,
}

/// The boot is gone: it was never seen, or is lost for too long.
pub open spec fn unavailable(boot: Option<BootTrack>, keep: i32) -> bool {
    match boot {
        None => true,
        Some(b) => b.lost_frames > keep,
    }
}

/// The timers after a look at whether the boot is gone: the wait for a rescue starts when it is first
/// seen to be, after the first throw, and ends when it is back.
pub open spec fn watch_missing(t: Timers, now: u128, startup: Startup, gone: bool, delay: u128) -> Timers {
    if startup is Running || !gone {
        Timers { missing_since: None, rescue_left: 0, next_rescue: None, ..t }
    } else if t.missing_since is None {
        Timers { missing_since: Some(now), next_rescue: Some(double::sum(now, delay) as u128), ..t }
    } else {
        t
    }
}

/// The timers after a look at whether the boot lies on the cart.
pub open spec fn watch_settled(t: Timers, now: u128, startup: Startup, on_cart: bool) -> Timers {
    if startup is Done && on_cart {
        Timers {
            on_cart_since: match t.on_cart_since {
                Some(since) => Some(since),
                None => Some(now),
            },
            ..t
        }
    } else {
        Timers { on_cart_since: None, ..t }
    }
}

/// The boot is thrown: it has lain on the cart for long enough, and the last throw is long enough ago.
pub open spec fn throws(t: Timers, now: u128) -> bool {
    (t.on_cart_since matches Some(since) && double::difference(now, since) >= SETTLE_TIME) && now >= t.next_relaunch
}

/// The space bar is tapped for a boot that is gone.
pub open spec fn rescues(t: Timers, now: u128, startup: Startup, gone: bool, plan: RescuePlan) -> bool {
    &&& startup is Done
    &&& gone
    &&& !plan.off
    &&& plan.taps > 0
    &&& t.next_rescue matches Some(at) && now >= at
}

/// The timers after the boot was thrown.
pub open spec fn after_throw(now: u128) -> Timers {
    Timers {
        missing_since: None,
        rescue_left: 0,
        next_rescue: None,
        on_cart_since: None,
        next_relaunch: double::sum(now, RELAUNCH_COOLDOWN) as u128,
    }
}

/// The timers after a tap of a rescue.
pub open spec fn after_rescue(t: Timers, now: u128, plan: RescuePlan) -> Timers {
    let left = if t.rescue_left <= 0 {
        plan.taps - 1
    } else {
        t.rescue_left - 1
    };
    Timers {
        rescue_left: left as i32,
        next_rescue: Some(
            if left > 0 {
                double::sum(now, plan.pause()) as u128
            } else {
                double::sum(now, plan.rest()) as u128
            },
        ),
        ..t
    }
}

/// After a throw there is none before three quarters of a second have passed, wherever the boot lies.
pub proof fn lemma_throw_cooldown(t: Timers, now: u128, later: u128)
    requires
        t.next_relaunch == after_throw(now).next_relaunch,
        now < LATEST,
        later < double::sum(now, RELAUNCH_COOLDOWN),
    ensures
        !throws(t, later),
{
    double::lemma_nearest_order(0, (now + RELAUNCH_COOLDOWN) as nat);
}

/// A tap of a rescue is not followed by another before the pause is over.
pub proof fn lemma_rescue_pause(t: Timers, now: u128, later: u128, startup: Startup, gone: bool, plan: RescuePlan)
    requires
        plan.wf(),
        now < LATEST,
        later < double::sum(now, plan.pause()),
    ensures
        !rescues(after_rescue(t, now, plan), later, startup, gone, plan),
        plan.pause() >= LEAST_INTERVAL,
{
    double::lemma_nearest_order((now + plan.pause()) as nat, (now + plan.rest()) as nat);
}

/// A rescue has as many taps as planned: counted down from the first one, the last is followed by the
/// long pause.
pub proof fn lemma_rescue_counts(t: Timers, now: u128, plan: RescuePlan)
    requires
        plan.taps > 0,
        0 <= t.rescue_left < plan.taps,
        plan.wf(),
        now < LATEST,
    ensures
        0 <= after_rescue(t, now, plan).rescue_left < plan.taps,
        after_rescue(t, now, plan).rescue_left == 0 ==> after_rescue(t, now, plan).next_rescue == Some(
            double::sum(now, plan.rest()) as u128,
        ),
        t.rescue_left == 0 ==> after_rescue(t, now, plan).rescue_left == plan.taps - 1,
        t.rescue_left > 0 ==> after_rescue(t, now, plan).rescue_left == t.rescue_left - 1,
{
}

/// No rescue before the boot has been missing for the delay.
pub proof fn lemma_rescue_delay(t: Timers, now: u128, later: u128, startup: Startup, plan: RescuePlan)
    requires
        plan.wf(),
        now < LATEST,
        t.missing_since is None,
        !(startup is Running),
        later < double::sum(now, plan.delay),
    ensures
        !rescues(watch_missing(t, now, startup, true, plan.delay), later, startup, true, plan),
{
    double::lemma_nearest_order(0, (now + plan.delay) as nat);
}

/// Why the tool steered or did not.
#[derive(Clone, Copy, Debug, PartialEq, Eq, Structural)]
pub enum ControlReason {
    StartupFailed,
    StartupTracking,
    Steered,
    NoBoot,
    NoCart,
    BootLost(i32),
    NeverSeen,
    Thrown,
    Rescue,
}

/// The name of a reason in status lines and logs.
pub open spec fn reason_text(r: ControlReason) -> Seq<char> {
    match r {
        ControlReason::StartupFailed => "startup_failed"@,
        ControlReason::StartupTracking => "startup_tracking"@,
        ControlReason::Steered => "steer_to_detected_boot"@,
        ControlReason::NoBoot => "no_current_boot_detection"@,
        ControlReason::NoCart => "no_current_cart_detection"@,
        ControlReason::BootLost(n) => "boot_lost="@ + text::decimal(n as int),
        ControlReason::NeverSeen => "boot_state_none"@,
        ControlReason::Thrown => "boot_on_cart_relaunch"@,
        ControlReason::Rescue => "rescue_space"@,
    }
}

impl ControlReason {
    /// The name of a reason in status lines and logs.
    pub fn name(self) -> (name: String)
        ensures
            name@ == reason_text(self),
    {
        match self {
            ControlReason::StartupFailed => text::copy("startup_failed"),
            ControlReason::StartupTracking => text::copy("startup_tracking"),
            ControlReason::Steered => text::copy("steer_to_detected_boot"),
            ControlReason::NoBoot => text::copy("no_current_boot_detection"),
            ControlReason::NoCart => text::copy("no_current_cart_detection"),
            ControlReason::BootLost(n) => {
                let mut out = text::copy("boot_lost=");
                text::push_int(&mut out, n as i64);
                out
            },
            ControlReason::NeverSeen => text::copy("boot_state_none"),
            ControlReason::Thrown => text::copy("boot_on_cart_relaunch"),
            ControlReason::Rescue => text::copy("rescue_space"),
        }
    }
}

/// What a frame has shown.
#[derive(Clone, Copy, Debug, PartialEq, Eq, Structural)]
pub struct Sight {
    /// The time since the tool was started, a double-precision number of seconds.
    pub now: u128,
    pub startup: Startup,
    /// The column of the boot, where it was seen and taken in this frame.
    pub target: Option<i32>,
    /// The cart was seen in this frame.
    pub cart_seen: bool,
    /// Where the tracked cart is and what it still moves, in units of 2^-52.
    pub cart_x: u128,
    pub lead: i128,
    /// The tracked boot lies on the cart.
    pub on_cart: bool,
}

impl Sight {
    /// The numbers are within what can be computed with.
    pub open spec fn wf(self) -> bool {
        &&& self.now < LATEST
        &&& self.target matches Some(x) ==> 0 <= x
        &&& self.cart_x < 0x10_0000_0000_0000_0000_0000_0000
        &&& -0x10_0000_0000_0000_0000_0000_0000 < self.lead < 0x10_0000_0000_0000_0000_0000_0000
    }
}

/// What the tool decided in a frame.
pub struct Decision {
    pub action: Action,
    pub error: Option<i128>,
    pub reason: ControlReason,
    /// What is reported where nothing else is amiss.
    pub notice: Option<ControlReason>,
    /// Key events to send before anything else.
    pub events: Vec<Input>,
    /// The space bar is tapped after that.
    pub tap_space: bool,
}

/// The tool's state: the tracked boot, the key that is held and the timers.
#[derive(Clone, Copy, Debug, PartialEq, Eq, Structural)]
pub struct Controller {
    pub boot: Option<BootTrack>,
    pub held: HeldKey,
    pub timers: Timers,
}

/// Why the tool steers or does not.
pub open spec fn steer_reason(boot: Option<BootTrack>, s: Sight, keep: i32) -> ControlReason {
    match boot {
        None => ControlReason::NeverSeen,
        Some(b) => if s.startup is Running {
            ControlReason::StartupTracking
        } else if s.startup is Failed {
            ControlReason::StartupFailed
        } else if b.lost_frames <= keep && s.target is Some && s.cart_seen {
            ControlReason::Steered
        } else if s.target is None {
            ControlReason::NoBoot
        } else if !s.cart_seen {
            ControlReason::NoCart
        } else {
            ControlReason::BootLost(b.lost_frames)
        },
    }
}

/// The key that is held after steering.
pub open spec fn steered(c: Controller, s: Sight, keep: i32, deadzone: u128) -> HeldKey {
    if steer_reason(c.boot, s, keep) is Steered {
        steer_key(c.held, steer_error(s.target->0 as int, s.cart_x, s.lead), deadzone)
    } else {
        HeldKey::Neither
    }
}

/// The timers after both looks of a frame.
pub open spec fn watched(c: Controller, s: Sight, keep: i32, plan: RescuePlan) -> Timers {
    watch_settled(
        watch_missing(c.timers, s.now, s.startup, unavailable(c.boot, keep), plan.delay),
        s.now,
        s.startup,
        s.on_cart,
    )
}

/// The state after a frame.
pub open spec fn decided(c: Controller, s: Sight, keep: i32, deadzone: u128, plan: RescuePlan) -> Controller {
    let t = watched(c, s, keep, plan);
    if throws(t, s.now) {
        Controller { boot: None, held: HeldKey::Neither, timers: after_throw(s.now) }
    } else if rescues(t, s.now, s.startup, unavailable(c.boot, keep), plan) {
        Controller { boot: c.boot, held: HeldKey::Neither, timers: after_rescue(t, s.now, plan) }
    } else {
        Controller { boot: c.boot, held: steered(c, s, keep, deadzone), timers: t }
    }
}

/// The action of a frame.
pub open spec fn action_of(c: Controller, s: Sight, keep: i32, deadzone: u128, plan: RescuePlan) -> Action {
    let t = watched(c, s, keep, plan);
    if throws(t, s.now) || rescues(t, s.now, s.startup, unavailable(c.boot, keep), plan) {
        Action::Space
    } else {
        key_action(steered(c, s, keep, deadzone))
    }
}

/// The reason for the action of a frame.
pub open spec fn reason_of(c: Controller, s: Sight, keep: i32, plan: RescuePlan) -> ControlReason {
    let t = watched(c, s, keep, plan);
    if throws(t, s.now) {
        ControlReason::Thrown
    } else if rescues(t, s.now, s.startup, unavailable(c.boot, keep), plan) {
        ControlReason::Rescue
    } else {
        steer_reason(c.boot, s, keep)
    }
}

/// What is reported of a frame where nothing else is amiss: a throw always, and a rescue or an unfinished
/// first throw where a boot is tracked. A report of the first throw is not replaced by a rescue, but a
/// throw replaces everything.
pub open spec fn notice_of(c: Controller, s: Sight, keep: i32, plan: RescuePlan) -> Option<ControlReason> {
    let t = watched(c, s, keep, plan);
    let r = steer_reason(c.boot, s, keep);
    if throws(t, s.now) {
        Some(ControlReason::Thrown)
    } else if r is StartupTracking || r is StartupFailed {
        Some(r)
    } else if rescues(t, s.now, s.startup, unavailable(c.boot, keep), plan) {
        Some(ControlReason::Rescue)
    } else {
        None
    }
}

/// The key events of a frame: those of steering and, where the space bar is tapped, of letting go of
/// what is still held.
pub open spec fn events_of(c: Controller, s: Sight, keep: i32, deadzone: u128, plan: RescuePlan) -> Seq<Input> {
    let mid = steered(c, s, keep, deadzone);
    let steering = input::switches(c.held, mid);
    if action_of(c, s, keep, deadzone, plan) is Space {
        steering + input::releases(mid, false)
    } else {
        steering
    }
}

/// While the first throw is not done, no key is held and nothing is tapped; and no key is held after a tap
/// of the space bar.
pub proof fn lemma_hands_off(c: Controller, s: Sight, keep: i32, deadzone: u128, plan: RescuePlan)
    ensures
        !(s.startup is Done) ==> decided(c, s, keep, deadzone, plan).held is Neither && action_of(
            c,
            s,
            keep,
            deadzone,
            plan,
        ) is Idle,
        action_of(c, s, keep, deadzone, plan) is Space ==> decided(c, s, keep, deadzone, plan).held is Neither,
{
}

/// A boot is thrown only where it lies on the cart and has done so since an earlier frame, for at least
/// 180 milliseconds.
pub proof fn lemma_throw_after_rest(c: Controller, s: Sight, keep: i32, plan: RescuePlan)
    requires
        reason_of(c, s, keep, plan) is Thrown,
    ensures
        s.on_cart,
        s.startup is Done,
        c.timers.on_cart_since matches Some(since) && double::difference(s.now, since) >= SETTLE_TIME,
{
    double::lemma_nearest_order(0, 0);
}

/// A boot that has lain on the cart for 181 milliseconds is thrown as soon as the last throw is long enough ago,
/// one that has lain there for less than 179 milliseconds is not. It is not tracked any more, and the next
/// throw is three quarters of a second off, to within a millisecond. A second has 2^82 units.
pub proof fn lemma_rested_boot_thrown(c: Controller, s: Sight, keep: i32, deadzone: u128, plan: RescuePlan, since: u128)
    requires
        s.wf(),
        plan.wf(),
        s.startup is Done,
        s.on_cart,
        c.timers.on_cart_since == Some(since),
        since <= s.now,
    ensures
        ({
            let after = decided(c, s, keep, deadzone, plan);
            let reason = reason_of(c, s, keep, plan);
            &&& 1000 * (s.now - since) >= 181 * 4835703278458516698824704 && c.timers.next_relaunch <= s.now ==> reason is Thrown
            &&& 1000 * (s.now - since) < 179 * 4835703278458516698824704 ==> !(reason is Thrown)
            &&& c.timers.next_relaunch > s.now ==> !(reason is Thrown)
            &&& reason is Thrown ==> {
                &&& action_of(c, s, keep, deadzone, plan) is Space
                &&& after.boot is None
                &&& after.timers.on_cart_since is None
                &&& after.timers.missing_since is None
                &&& after.timers.next_rescue is None
                &&& after.timers.rescue_left == 0
                &&& after.held is Neither
                &&& 1000 * (after.timers.next_relaunch - s.now) >= 749 * 4835703278458516698824704
                &&& 1000 * (after.timers.next_relaunch - s.now) <= 751 * 4835703278458516698824704
            }
            &&& !(reason is Thrown) ==> after.timers.on_cart_since == Some(since) && after.timers.next_relaunch
                == c.timers.next_relaunch && after.boot == c.boot
        }),
{
    double::lemma_nearest_close((s.now - since) as nat);
    double::lemma_nearest_close((s.now + RELAUNCH_COOLDOWN) as nat);
}

/// The rest on the cart is counted from the first frame in which the boot lies there, and anew once it does not.
pub proof fn lemma_rest_counted(c: Controller, s: Sight, keep: i32, deadzone: u128, plan: RescuePlan)
    ensures
        !s.on_cart ==> decided(c, s, keep, deadzone, plan).timers.on_cart_since is None,
        s.on_cart && s.startup is Done && c.timers.on_cart_since is None ==> decided(c, s, keep, deadzone, plan).timers.on_cart_since
            == Some(s.now),
{
    assert(double::nearest(0) == 0) by {
        double::lemma_nearest_close(0);
    }
}

/// Of two frames in which the boot lies on the cart, at least 181 milliseconds apart and with no throw due
/// before, the second throws it, where it had not lain there before the first.
pub proof fn lemma_two_frames_throw(
    c: Controller,
    first: Sight,
    second: Sight,
    keep: i32,
    deadzone: u128,
    plan: RescuePlan,
)
    requires
        first.wf(),
        second.wf(),
        plan.wf(),
        first.startup is Done,
        first.on_cart,
        second.startup is Done,
        second.on_cart,
        c.timers.on_cart_since is None,
        1000 * (second.now - first.now) >= 181 * 4835703278458516698824704,
        c.timers.next_relaunch <= second.now,
    ensures
        action_of(decided(c, first, keep, deadzone, plan), second, keep, deadzone, plan) is Space,
        reason_of(decided(c, first, keep, deadzone, plan), second, keep, plan) is Thrown,
{
    let mid = decided(c, first, keep, deadzone, plan);
    lemma_rest_counted(c, first, keep, deadzone, plan);
    assert(double::nearest(0) == 0) by {
        double::lemma_nearest_close(0);
    }
    assert(mid.timers.next_relaunch == c.timers.next_relaunch);
    lemma_rested_boot_thrown(mid, second, keep, deadzone, plan, first.now);
}

/// The wait for a rescue starts in the first frame in which no boot is tracked or the tracked one has been lost
/// for more than `keep` frames, ends after the delay, and is given up once the boot is back. It does not start before the
/// first throw is over.
pub proof fn lemma_rescue_waits(c: Controller, s: Sight, keep: i32, plan: RescuePlan)
    requires
        s.wf(),
        plan.wf(),
    ensures
        ({
            let t = watched(c, s, keep, plan);
            let gone = !(s.startup is Running) && (c.boot is None || c.boot->0.lost_frames > keep);
            &&& gone && c.timers.missing_since is None ==> {
                &&& t.missing_since == Some(s.now)
                &&& t.next_rescue is Some
                &&& 1000 * (t.next_rescue->0 - (s.now + plan.delay)) <= 2 * 4835703278458516698824704
                &&& 1000 * (s.now + plan.delay - t.next_rescue->0) <= 2 * 4835703278458516698824704
            }
            &&& gone && c.timers.missing_since is Some ==> t.missing_since == c.timers.missing_since && t.next_rescue
                == c.timers.next_rescue && t.rescue_left == c.timers.rescue_left
            &&& !gone ==> t.missing_since is None && t.next_rescue is None && t.rescue_left == 0
        }),
{
    double::lemma_nearest_close((s.now + plan.delay) as nat);
}

/// Once the boot is gone and the rescue is due, the space bar is tapped; it is not before, nor where rescues are
/// switched off or the boot is in sight.
pub proof fn lemma_rescue_due(c: Controller, s: Sight, keep: i32, deadzone: u128, plan: RescuePlan, at: u128)
    requires
        s.startup is Done,
        !s.on_cart,
        c.boot is None || c.boot->0.lost_frames > keep,
        c.timers.missing_since is Some,
        c.timers.next_rescue == Some(at),
    ensures
        action_of(c, s, keep, deadzone, plan) is Space <==> s.now >= at && !plan.off && plan.taps > 0,
        reason_of(c, s, keep, plan) is Rescue <==> s.now >= at && !plan.off && plan.taps > 0,
        decided(c, s, keep, deadzone, plan).held is Neither,
        decided(c, s, keep, deadzone, plan).boot == c.boot,
{
}

/// A boot in sight is not rescued.
pub proof fn lemma_no_needless_rescue(c: Controller, s: Sight, keep: i32, deadzone: u128, plan: RescuePlan)
    requires
        c.boot matches Some(b) && b.lost_frames <= keep,
        !s.on_cart,
    ensures
        !(action_of(c, s, keep, deadzone, plan) is Space),
{
}

/// With the boot and the cart in sight, the cart follows a boot that is far off and flying, to either side.
pub proof fn lemma_boot_followed(c: Controller, s: Sight, keep: i32, deadzone: u128, plan: RescuePlan)
    requires
        s.startup is Done,
        !s.on_cart,
        s.cart_seen,
        s.target is Some,
        c.boot matches Some(b) && b.lost_frames <= keep,
    ensures
        ({
            let error = steer_error(s.target->0 as int, s.cart_x, s.lead);
            &&& 1_000_000 * error > 1_450_001 * deadzone + 1_000_000 ==> action_of(c, s, keep, deadzone, plan) is Right
            &&& -1_000_000 * error > 1_450_001 * deadzone + 1_000_000 ==> action_of(c, s, keep, deadzone, plan) is Left
            &&& c.held is Neither && -deadzone <= error <= deadzone ==> action_of(c, s, keep, deadzone, plan) is Idle
            &&& reason_of(c, s, keep, plan) is Steered
        }),
{
    lemma_far_target_followed(c.held, steer_error(s.target->0 as int, s.cart_x, s.lead), deadzone);
}

/// With no boot or no cart in sight all keys are let go.
pub proof fn lemma_blind_hands_off(c: Controller, s: Sight, keep: i32, deadzone: u128, plan: RescuePlan)
    requires
        s.target is None || !s.cart_seen || c.boot is None || c.boot->0.lost_frames > keep,
    ensures
        decided(c, s, keep, deadzone, plan).held is Neither,
        !(action_of(c, s, keep, deadzone, plan) is Left),
        !(action_of(c, s, keep, deadzone, plan) is Right),
{
}

/// A rescue taps as often as planned, at intervals of at least a twentieth of a second, and starts again after the
/// cooldown: each tap is followed by the next after the interval, the last by the longer of both pauses.
pub proof fn lemma_rescue_taps(t: Timers, now: u128, plan: RescuePlan)
    requires
        plan.wf(),
        now < LATEST,
        plan.taps > 0,
        0 <= t.rescue_left < plan.taps,
    ensures
        ({
            let after = after_rescue(t, now, plan);
            let pause = after.next_rescue->0 - now;
            let unit = 4835703278458516698824704int;
            &&& after.next_rescue is Some
            &&& 1000 * pause >= 49 * unit
            &&& 1000 * pause >= 1000 * plan.interval - 2 * unit
            &&& after.rescue_left == (if t.rescue_left == 0 {
                plan.taps
            } else {
                t.rescue_left
            }) - 1
            &&& after.rescue_left == 0 ==> 1000 * pause >= 1000 * plan.cooldown - 2 * unit
            &&& 1000 * plan.interval >= 50 * unit && after.rescue_left > 0 ==> 1000 * pause <= 1000 * plan.interval + 2 * unit
            &&& 1000 * plan.cooldown >= 50 * unit && plan.cooldown >= plan.interval && after.rescue_left == 0 ==> 1000 * pause
                <= 1000 * plan.cooldown + 2 * unit
            &&& after.missing_since == t.missing_since && after.on_cart_since == t.on_cart_since && after.next_relaunch
                == t.next_relaunch
        }),
{
    double::lemma_nearest_close((now + plan.pause()) as nat);
    double::lemma_nearest_close((now + plan.rest()) as nat);
}

/// The keyboard stays in step with the held key over a frame.
pub proof fn lemma_keyboard_in_step(c: Controller, s: Sight, keep: i32, deadzone: u128, plan: RescuePlan)
    ensures
        input::down_after(input::keys_of(c.held), events_of(c, s, keep, deadzone, plan)) == input::keys_of(
            decided(c, s, keep, deadzone, plan).held,
        ),
{
    let mid = steered(c, s, keep, deadzone);
    input::lemma_switch_keeps_track(c.held, mid);
    input::lemma_release_keeps_track(mid, false);
    if action_of(c, s, keep, deadzone, plan) is Space {
        input::lemma_down_concat(input::keys_of(c.held), input::switches(c.held, mid), input::releases(mid, false));
        assert(input::keys_of(HeldKey::Neither) =~= Set::<u16>::empty());
    }
}

impl Controller {
    /// A tool that has seen nothing yet.
    pub fn new() -> (c: Self)
        ensures
            c == (Controller {
                boot: None,
                held: HeldKey::Neither,
                timers: Timers {
                    missing_since: None,
                    rescue_left: 0,
                    next_rescue: None,
                    on_cart_since: None,
                    next_relaunch: 0,
                },
            }),
    {
        Controller {
            boot: None,
            held: HeldKey::Neither,
            timers: Timers {
                missing_since: None,
                rescue_left: 0,
                next_rescue: None,
                on_cart_since: None,
                next_relaunch: 0,
            },
        }
    }

    fn watch(&mut self, s: &Sight, keep: i32, plan: &RescuePlan) -> (gone: bool)
        requires
            s.wf(),
            plan.wf(),
        ensures
            gone == unavailable(old(self).boot, keep),
            *final(self) == (Controller { timers: watched(*old(self), *s, keep, *plan), ..*old(self) }),
    {
        let gone: bool = match self.boot {
            None => true,
            Some(b) => b.lost_frames > keep,
        };
        let mut t = self.timers;
        let running: bool = match s.startup {
            Startup::Running => true,
            _ => false,
        };
        let done: bool = match s.startup {
            Startup::Done => true,
            _ => false,
        };
        if running || !gone {
            t.missing_since = None;
            t.rescue_left = 0;
            t.next_rescue = None;
        } else if t.missing_since.is_none() {
            t.missing_since = Some(s.now);
            t.next_rescue = Some(double::round(s.now + plan.delay));
        }
        if done && s.on_cart {
            if t.on_cart_since.is_none() {
                t.on_cart_since = Some(s.now);
            }
        } else {
            t.on_cart_since = None;
        }
        self.timers = t;
        gone
    }

    fn steer(&mut self, s: &Sight, keep: i32, deadzone: u128) -> (r: (Action, Option<i128>, ControlReason, Vec<Input>))
        requires
            s.wf(),
        ensures
            *final(self) == (Controller { held: steered(*old(self), *s, keep, deadzone), ..*old(self) }),
            r.0 == key_action(final(self).held),
            r.1 is Some <==> steer_reason(old(self).boot, *s, keep) is Steered,
            r.1 matches Some(e) ==> e == steer_error(s.target->0 as int, s.cart_x, s.lead),
            r.2 == steer_reason(old(self).boot, *s, keep),
            r.3@ == input::switches(old(self).held, final(self).held),
    {
        let mut held = self.held;
        if let (Some(b), Startup::Done, Some(x), true) = (self.boot, s.startup, s.target, s.cart_seen) {
            if b.lost_frames <= keep {
                let st = steer_to(x, s.cart_x, s.lead, &mut held, deadzone);
                self.held = held;
                return (st.action, Some(st.error), ControlReason::Steered, st.events);
            }
        }
        let reason = match self.boot {
            None => ControlReason::NeverSeen,
            Some(b) => match s.startup {
                Startup::Running => ControlReason::StartupTracking,
                Startup::Failed => ControlReason::StartupFailed,
                Startup::Done => {
                    if s.target.is_none() {
                        ControlReason::NoBoot
                    } else if !s.cart_seen {
                        ControlReason::NoCart
                    } else {
                        ControlReason::BootLost(b.lost_frames)
                    }
                },
            },
        };
        let events = input::release_keys(&mut held, false);
        assert(events@ =~= input::switches(self.held, HeldKey::Neither));
        self.held = held;
        (Action::Idle, None, reason, events)
    }

    /// Takes in a frame and decides which keys to press.
    pub fn decide(&mut self, s: &Sight, keep: i32, deadzone: u128, plan: &RescuePlan) -> (d: Decision)
        requires
            s.wf(),
            plan.wf(),
        ensures
            *final(self) == decided(*old(self), *s, keep, deadzone, *plan),
            d.action == action_of(*old(self), *s, keep, deadzone, *plan),
            d.reason == reason_of(*old(self), *s, keep, *plan),
            d.notice == notice_of(*old(self), *s, keep, *plan),
            d.events@ == events_of(*old(self), *s, keep, deadzone, *plan),
            d.tap_space <==> d.action is Space,
            d.error is Some <==> steer_reason(old(self).boot, *s, keep) is Steered,
            d.error matches Some(e) ==> e == steer_error(s.target->0 as int, s.cart_x, s.lead),
    {
        let ghost before = *self;
        let gone: bool = self.watch(s, keep, plan);
        let (action, error, reason, events) = self.steer(s, keep, deadzone);
        let mut events = events;
        let t = self.timers;
        let now: u128 = s.now;
        let settled: bool = match t.on_cart_since {
            Some(since) => {
                if now >= since {
                    double::round(now - since) >= SETTLE_TIME
                } else {
                    false
                }
            },
            None => false,
        };
        let startup_notice = match reason {
            ControlReason::StartupTracking => Some(reason),
            ControlReason::StartupFailed => Some(reason),
            _ => None,
        };
        if settled && now >= t.next_relaunch {
            let mut held = self.held;
            let mut more = input::release_keys(&mut held, false);
            events.append(&mut more);
            self.held = held;
            self.boot = None;
            self.timers = Timers {
                missing_since: None,
                rescue_left: 0,
                next_rescue: None,
                on_cart_since: None,
                next_relaunch: double::round(now + RELAUNCH_COOLDOWN),
            };
            assert(events@ =~= events_of(before, *s, keep, deadzone, *plan));
            return Decision {
                action: Action::Space,
                error,
                reason: ControlReason::Thrown,
                notice: Some(ControlReason::Thrown),
                events,
                tap_space: true,
            };
        }
        let due: bool = match t.next_rescue {
            Some(at) => now >= at,
            None => false,
        };
        let done: bool = match s.startup {
            Startup::Done => true,
            _ => false,
        };
        if done && gone && !plan.off && plan.taps > 0 && due {
            let mut held = self.held;
            let mut more = input::release_keys(&mut held, false);
            events.append(&mut more);
            self.held = held;
            let left: i32 = if t.rescue_left <= 0 {
                plan.taps - 1
            } else {
                t.rescue_left - 1
            };
            let pause: u128 = if plan.interval > LEAST_INTERVAL {
                plan.interval
            } else {
                LEAST_INTERVAL
            };
            let rest: u128 = if plan.cooldown > pause {
                plan.cooldown
            } else {
                pause
            };
            self.timers = Timers {
                missing_since: t.missing_since,
                rescue_left: left,
                next_rescue: Some(
                    if left > 0 {
                        double::round(now + pause)
                    } else {
                        double::round(now + rest)
                    },
                ),
                on_cart_since: t.on_cart_since,
                next_relaunch: t.next_relaunch,
            };
            assert(events@ =~= events_of(before, *s, keep, deadzone, *plan));
            let notice = match startup_notice {
                Some(n) => Some(n),
                None => Some(ControlReason::Rescue),
            };
            return Decision {
                action: Action::Space,
                error,
                reason: ControlReason::Rescue,
                notice,
                events,
                tap_space: true,
            };
        }
        Decision { action, error, reason, notice: startup_notice, events, tap_space: false }
    }
}

/// One step of the first throw.
#[derive(Clone, Copy, Debug, PartialEq, Eq, Structural)]
pub enum ThrowStep {
    /// Press a key, wait, and release it, also where a stop cuts the waiting short.
    Hold { vk: u16, millis: u64 },
    Pause { millis: u64 },
}

/// Two taps of the space bar.
pub open spec fn double_tap() -> Seq<ThrowStep> {
    seq![
        ThrowStep::Hold { vk: crate::platform::win32::VK_SPACE, millis: 250 },
        ThrowStep::Pause { millis: 180 },
        ThrowStep::Hold { vk: crate::platform::win32::VK_SPACE, millis: 250 },
        ThrowStep::Pause { millis: 180 },
    ]
}

/// The first throw: to the right and two taps, to the left and two taps.
pub open spec fn throw_script() -> Seq<ThrowStep> {
    seq![ThrowStep::Hold { vk: crate::platform::win32::VK_D, millis: 600 }] + double_tap() + seq![
        ThrowStep::Hold { vk: crate::platform::win32::VK_A, millis: 600 },
    ] + double_tap()
}

/// The steps of the first throw. A stop ends it after the step that it falls into, and it then counts as
/// failed.
pub fn run_boot_throw_startup() -> (steps: Vec<ThrowStep>)
    ensures
        steps@ == throw_script(),
{
    let mut steps: Vec<ThrowStep> = Vec::new();
    steps.push(ThrowStep::Hold { vk: crate::platform::win32::VK_D, millis: 600 });
    steps.push(ThrowStep::Hold { vk: crate::platform::win32::VK_SPACE, millis: 250 });
    steps.push(ThrowStep::Pause { millis: 180 });
    steps.push(ThrowStep::Hold { vk: crate::platform::win32::VK_SPACE, millis: 250 });
    steps.push(ThrowStep::Pause { millis: 180 });
    steps.push(ThrowStep::Hold { vk: crate::platform::win32::VK_A, millis: 600 });
    steps.push(ThrowStep::Hold { vk: crate::platform::win32::VK_SPACE, millis: 250 });
    steps.push(ThrowStep::Pause { millis: 180 });
    steps.push(ThrowStep::Hold { vk: crate::platform::win32::VK_SPACE, millis: 250 });
    steps.push(ThrowStep::Pause { millis: 180 });
    assert(steps@ =~= throw_script());
    steps
}

/// The letters of the actions are those of the keys, and all different.
pub proof fn lemma_action_letters(a: Action, b: Action)
    ensures
        action_letter(key_action(HeldKey::A)) == 'A',
        action_letter(key_action(HeldKey::D)) == 'D',
        action_letter(key_action(HeldKey::Neither)) == '-',
        action_letter(Action::Space) == 'S',
        action_letter(a) == action_letter(b) ==> a == b,
{
}

/// A throw is always reported; while the first throw is under way or has failed and a boot is tracked, that is reported
/// instead of a rescue; a rescue is reported otherwise, and steering never.
pub proof fn lemma_notices(c: Controller, s: Sight, keep: i32, plan: RescuePlan)
    ensures
        reason_of(c, s, keep, plan) is Thrown ==> notice_of(c, s, keep, plan) == Some(ControlReason::Thrown),
        c.boot is Some && s.startup is Running ==> notice_of(c, s, keep, plan) == Some(ControlReason::StartupTracking),
        c.boot is Some && s.startup is Failed ==> notice_of(c, s, keep, plan) == Some(ControlReason::StartupFailed),
        reason_of(c, s, keep, plan) is Rescue ==> notice_of(c, s, keep, plan) == Some(ControlReason::Rescue),
        s.startup is Done && !(reason_of(c, s, keep, plan) is Thrown) && !(reason_of(c, s, keep, plan) is Rescue)
            ==> notice_of(c, s, keep, plan) is None,
        c.boot is None && !(s.startup is Done) ==> notice_of(c, s, keep, plan) is None,
{
}

/// Why the cart is not steered: nothing was ever seen, the first throw is not over, the boot or the cart is out of sight,
/// or the boot has been lost for too long.
pub proof fn lemma_steer_reasons(c: Controller, s: Sight, keep: i32)
    ensures
        ({
            let r = steer_reason(c.boot, s, keep);
            &&& r is NeverSeen <==> c.boot is None
            &&& c.boot is Some && s.startup is Done && s.target is None ==> r is NoBoot
            &&& c.boot is Some && s.startup is Done && s.target is Some && !s.cart_seen ==> r is NoCart
            &&& c.boot is Some && s.startup is Done && s.target is Some && s.cart_seen ==> (if c.boot->0.lost_frames > keep {
                r == ControlReason::BootLost(c.boot->0.lost_frames)
            } else {
                r is Steered
            })
            &&& r is Steered ==> s.startup is Done
        }),
{
}

} // verus!
