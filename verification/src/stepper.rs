//! Driving a bipolar stepper through a DRV8833, and deciding when not to.
//!
//! Hardware-neutral on purpose: whoever owns the four output pins does what
//! [`Planner::poll`] tells it.
//!
//! # The bridge
//!
//! A DRV8833 is two H-bridges. Each takes two inputs, and the pair means:
//!
//! | xIN1 | xIN2 | bridge |
//! | --- | --- | --- |
//! | 0 | 0 | coast — outputs floating, coil de-energised |
//! | 1 | 0 | forward |
//! | 0 | 1 | reverse |
//! | 1 | 1 | brake — both outputs low |
//!
//! One bridge per winding, so `AIN1/AIN2` drive coil A and `BIN1/BIN2` coil B.
//! Coast is what releases the motor; brake is never used.
//!
//! # Why it releases itself
//!
//! A stepper at standstill with both coils energised turns its full rated
//! current into heat, and the driver has no current chopping. So holding is a
//! *timed* state: after the last step the planner holds position for
//! [`HOLD_AFTER_MOTION_US`] and then coasts.
//!
//! # Why jogging expires
//!
//! The trackpad sends a velocity and expects to send another shortly. If the
//! sender disappears, the last thing heard was "keep going". Every jog
//! therefore carries a deadline, and the motor stops when it passes.

use crate::text;
use vstd::prelude::*;

verus! {

/// The four bridge inputs, in the order the schematic names them.
#[derive(Clone, Copy, Debug, Eq, PartialEq, Structural)]
pub struct Coils {
    pub ain1: bool,
    pub ain2: bool,
    pub bin1: bool,
    pub bin2: bool,
}

/// The inputs that send `a` through coil A and `b` through coil B, each
/// forward, reverse or not at all by its sign.
pub open spec fn coils_of(a: int, b: int) -> Coils {
    Coils { ain1: a > 0, ain2: a < 0, bin1: b > 0, bin2: b < 0 }
}

impl Coils {
    /// Both bridges coasting: no current, no holding torque.
    #[must_use]
    pub fn released() -> (coils: Coils)
        ensures
            coils == coils_of(0, 0),
    {
        Coils { ain1: false, ain2: false, bin1: false, bin2: false }
    }

    fn new(a: i8, b: i8) -> (coils: Coils)
        ensures
            coils == coils_of(a as int, b as int),
    {
        Coils { ain1: a > 0, ain2: a < 0, bin1: b > 0, bin2: b < 0 }
    }

    /// Is any winding driven?
    pub open spec fn driven(self) -> bool {
        self.ain1 || self.ain2 || self.bin1 || self.bin2
    }

    /// Is a winding shorted, with both inputs of its bridge high?
    pub open spec fn braked(self) -> bool {
        (self.ain1 && self.ain2) || (self.bin1 && self.bin2)
    }

    /// Windings that carry current.
    pub open spec fn windings(self) -> int {
        (if self.ain1 || self.ain2 { 1int } else { 0 }) + (if self.bin1 || self.bin2 {
            1int
        } else {
            0
        })
    }

    /// Is any winding drawing current?
    #[must_use]
    pub fn energised(self) -> (driven: bool)
        ensures
            driven == self.driven(),
    {
        self.ain1 || self.ain2 || self.bin1 || self.bin2
    }
}

/// How finely the sequence divides one electrical revolution.
#[derive(Clone, Copy, Debug, Eq, PartialEq, Structural)]
pub enum StepMode {
    /// Four states, both windings always energised. Most torque, most heat,
    /// and the coarsest motion.
    Full,
    /// Eight states, alternating one winding and two. Half the step angle and
    /// noticeably smoother at low speed.
    Half,
}

impl Default for StepMode {
    fn default() -> (mode: StepMode)
        ensures
            mode == StepMode::Half,
    {
        StepMode::Half
    }
}

impl StepMode {
    /// States in one electrical revolution.
    pub open spec fn cycle(self) -> int {
        match self {
            StepMode::Full => 4,
            StepMode::Half => 8,
        }
    }

    #[must_use]
    pub fn states(self) -> (states: u8)
        ensures
            states == self.cycle(),
    {
        match self {
            StepMode::Full => 4,
            StepMode::Half => 8,
        }
    }

    /// The excitation of the state numbered `index`.
    pub open spec fn excitation(self, index: int) -> Coils {
        match self {
            StepMode::Full => {
                if index == 0 {
                    coils_of(1, 1)
                } else if index == 1 {
                    coils_of(-1, 1)
                } else if index == 2 {
                    coils_of(-1, -1)
                } else {
                    coils_of(1, -1)
                }
            },
            StepMode::Half => {
                if index == 0 {
                    coils_of(1, 0)
                } else if index == 1 {
                    coils_of(1, 1)
                } else if index == 2 {
                    coils_of(0, 1)
                } else if index == 3 {
                    coils_of(-1, 1)
                } else if index == 4 {
                    coils_of(-1, 0)
                } else if index == 5 {
                    coils_of(-1, -1)
                } else if index == 6 {
                    coils_of(0, -1)
                } else {
                    coils_of(1, -1)
                }
            },
        }
    }
}

/// Where in the excitation sequence the rotor is held.
#[derive(Clone, Copy, Debug)]
pub struct Sequencer {
    index: u8,
    mode: StepMode,
}

/// The state one step on from `index`, or one back.
pub open spec fn neighbour(mode: StepMode, index: int, forward: bool) -> int {
    if forward {
        (index + 1) % mode.cycle()
    } else {
        (index - 1) % mode.cycle()
    }
}

impl Sequencer {
    /// The number of the state being held.
    pub closed spec fn at(self) -> int {
        self.index as int
    }

    /// The mode it steps in, which never changes.
    pub closed spec fn stepping(self) -> StepMode {
        self.mode
    }

    /// The state is one of the mode's.
    pub open spec fn wf(self) -> bool {
        0 <= self.at() < self.stepping().cycle()
    }

    #[must_use]
    pub fn new(mode: StepMode) -> (seq: Sequencer)
        ensures
            seq.wf(),
            seq.at() == 0,
            seq.stepping() == mode,
    {
        Sequencer { index: 0, mode }
    }

    /// The excitation for the current position.
    #[must_use]
    pub fn coils(self) -> (coils: Coils)
        requires
            self.wf(),
        ensures
            coils == self.stepping().excitation(self.at()),
    {
        match self.mode {
            StepMode::Full => match self.index {
                0 => Coils::new(1, 1),
                1 => Coils::new(-1, 1),
                2 => Coils::new(-1, -1),
                _ => Coils::new(1, -1),
            },
            StepMode::Half => match self.index {
                0 => Coils::new(1, 0),
                1 => Coils::new(1, 1),
                2 => Coils::new(0, 1),
                3 => Coils::new(-1, 1),
                4 => Coils::new(-1, 0),
                5 => Coils::new(-1, -1),
                6 => Coils::new(0, -1),
                _ => Coils::new(1, -1),
            },
        }
    }

    /// Jump to a numbered state, for driving a known pattern on purpose.
    pub fn set_index(&mut self, index: u8)
        ensures
            final(self).wf(),
            final(self).stepping() == old(self).stepping(),
            final(self).at() == index as int % old(self).stepping().cycle(),
    {
        self.index = index % self.mode.states();
    }

    /// Move one step. `forward` picks the direction; the index wraps.
    pub fn advance(&mut self, forward: bool) -> (coils: Coils)
        requires
            old(self).wf(),
        ensures
            final(self).wf(),
            final(self).stepping() == old(self).stepping(),
            final(self).at() == neighbour(old(self).stepping(), old(self).at(), forward),
            coils == final(self).stepping().excitation(final(self).at()),
    {
        let n: u8 = self.mode.states();
        self.index = if forward {
            (self.index + 1) % n
        } else {
            (self.index + n - 1) % n
        };
        self.coils()
    }
}

/// The state `steps` steps on from `index`.
pub open spec fn steps_on(mode: StepMode, index: int, steps: nat) -> int
    decreases steps,
{
    if steps == 0 {
        index
    } else {
        neighbour(mode, steps_on(mode, index, (steps - 1) as nat), true)
    }
}

/// No state of the sequence brakes a winding, and every one drives current.
pub proof fn law_no_state_brakes_and_all_drive(mode: StepMode, index: int)
    requires
        0 <= index < mode.cycle(),
    ensures
        !mode.excitation(index).braked(),
        mode.excitation(index).driven(),
        !coils_of(0, 0).driven(),
{
}

/// A step back undoes a step forward, and the other way round.
pub proof fn law_stepping_back_undoes_stepping_forward(mode: StepMode, index: int)
    requires
        0 <= index < mode.cycle(),
    ensures
        neighbour(mode, neighbour(mode, index, true), false) == index,
        neighbour(mode, neighbour(mode, index, false), true) == index,
{
}

proof fn lemma_next_state(n: int)
    ensures
        (n % 4 + 1) % 4 == (n + 1) % 4,
        (n % 8 + 1) % 8 == (n + 1) % 8,
{
}

/// `steps` steps move the state by `steps`, around the cycle.
pub proof fn law_steps_add_up_around_the_cycle(mode: StepMode, index: int, steps: nat)
    requires
        0 <= index < mode.cycle(),
    ensures
        steps_on(mode, index, steps) == (index + steps) % mode.cycle(),
    decreases steps,
{
    if steps > 0 {
        law_steps_add_up_around_the_cycle(mode, index, (steps - 1) as nat);
        lemma_next_state(index + steps - 1);
    } else {
        lemma_next_state(index - 1);
    }
}

/// A full electrical revolution returns to where it started.
pub proof fn law_a_full_revolution_closes(mode: StepMode, index: int)
    requires
        0 <= index < mode.cycle(),
    ensures
        steps_on(mode, index, mode.cycle() as nat) == index,
{
    law_steps_add_up_around_the_cycle(mode, index, mode.cycle() as nat);
}

/// Half-stepping alternates one winding and two; full-stepping keeps both on.
pub proof fn law_half_stepping_alternates(index: int)
    requires
        0 <= index < 8,
    ensures
        StepMode::Half.excitation(index).windings() + StepMode::Half.excitation(
            neighbour(StepMode::Half, index, true),
        ).windings() == 3,
        index < 4 ==> StepMode::Full.excitation(index).windings() == 2,
{
}

/// The current through a winding whose bridge has these inputs: one way, the
/// other, or none.
pub open spec fn current(in1: bool, in2: bool) -> int {
    (if in1 {
        1int
    } else {
        0
    }) - (if in2 {
        1int
    } else {
        0
    })
}

/// How far the field turns from one pattern to another: the cross product of
/// the two current vectors, positive from coil A towards coil B.
pub open spec fn turn_between(from: Coils, to: Coils) -> int {
    current(from.ain1, from.ain2) * current(to.bin1, to.bin2) - current(from.bin1, from.bin2)
        * current(to.ain1, to.ain2)
}

/// How much the two currents change, taken together, from one pattern to
/// another.
pub open spec fn current_change(from: Coils, to: Coils) -> int {
    size(current(to.ain1, to.ain2) - current(from.ain1, from.ain2)) + size(
        current(to.bin1, to.bin2) - current(from.bin1, from.bin2),
    )
}

proof fn lemma_turn_between(from: Coils, to: Coils)
    ensures
        turn_between(from, to) == along(
            current(from.ain1, from.ain2),
            current(to.bin1, to.bin2),
        ) - along(current(from.bin1, from.bin2), current(to.ain1, to.ain2)),
{
    let (a, b) = (current(from.ain1, from.ain2), current(from.bin1, from.bin2));
    let (c, d) = (current(to.ain1, to.ain2), current(to.bin1, to.bin2));
    assert(a * d == along(a, d)) by (nonlinear_arith)
        requires
            a == 1 || a == 0 || a == -1,
    ;
    assert(b * c == along(b, c)) by (nonlinear_arith)
        requires
            b == 1 || b == 0 || b == -1,
    ;
}

/// Every step forward turns the field by one step angle from coil A towards
/// coil B, and every step back by one the other way. Half-stepping changes one
/// winding's current by one; full-stepping reverses one winding. The first
/// state of half-stepping is coil A forward alone, that of full-stepping both
/// windings forward.
pub proof fn law_each_step_turns_the_field_one_step_angle(mode: StepMode, index: int)
    requires
        0 <= index < mode.cycle(),
    ensures
        ({
            let here = mode.excitation(index);
            let ahead = mode.excitation(neighbour(mode, index, true));
            let behind = mode.excitation(neighbour(mode, index, false));
            let angle = match mode {
                StepMode::Half => 1int,
                StepMode::Full => 2int,
            };
            &&& turn_between(here, ahead) == angle
            &&& turn_between(here, behind) == -angle
            &&& current_change(here, ahead) == angle
            &&& current_change(here, behind) == angle
        }),
        ({
            let first = mode.excitation(0);
            &&& first.ain1 && !first.ain2 && !first.bin2
            &&& first.bin1 == (mode == StepMode::Full)
        }),
{
    let here = mode.excitation(index);
    lemma_turn_between(here, mode.excitation(neighbour(mode, index, true)));
    lemma_turn_between(here, mode.excitation(neighbour(mode, index, false)));
}

/// How long the motor keeps position after the last step before coasting.
pub const HOLD_AFTER_MOTION_US: u64 = 400_000;

/// How long a jog is honoured without a refresh.
///
/// The trackpad refreshes several times a second while a finger is down, so
/// this only expires when something stopped talking.
pub const JOG_TIMEOUT_US: u64 = 400_000;

/// Bounds on the runtime acceleration, in steps per second per second.
///
/// The floor keeps a mistyped zero from wedging the ramp so it never reaches
/// its target.
pub const MIN_ACCEL_STEPS_PER_S2: i32 = 100;

/// See [`MIN_ACCEL_STEPS_PER_S2`].
///
/// At the maximum step rate this covers the entire range in a handful of
/// polls, so the ramp has become a step change and asking for more changes
/// nothing.
pub const MAX_ACCEL_STEPS_PER_S2: i32 = 200_000;

/// How quickly the step rate is allowed to rise unless retuned.
///
/// A stepper cannot be commanded to a speed, only accelerated to one: told to
/// go from standstill straight to a few hundred steps a second, the rotor
/// cannot follow the field and stalls. It defaults to the ceiling, which is
/// the fastest response available and **not** the safest setting.
pub const ACCEL_STEPS_PER_S2: i32 = MAX_ACCEL_STEPS_PER_S2;

/// How hard the rate is brought *down*.
///
/// Not a knob: coming down, the field waits and the rotor arrives.
pub const DECEL_STEPS_PER_S2: i32 = 20_000;

/// The rate a stepper can start from rest without ramping to it.
pub const START_STEPS_PER_S: i32 = 50;

/// The fastest it will step, whatever is asked for.
///
/// A stepper commanded past the speed its torque can follow does not go
/// faster, it slips — and loses position silently.
pub const MAX_STEPS_PER_S: u32 = 1_000;

/// How long a jog on the persistent link is honoured without a keepalive.
///
/// Much longer than [`JOG_TIMEOUT_US`], and safe to be, because on that path a
/// client that disappears takes its socket with it and the motor is stopped by
/// the close rather than by this.
pub const LINK_JOG_TIMEOUT_US: u64 = 1_500_000;

/// The longest a diagnostic hold will energise a winding.
pub const MAX_HOLD_US: u64 = 10_000_000;

/// What the driver should be doing right now.
#[derive(Clone, Copy, Debug, Eq, PartialEq, Structural)]
pub struct Output {
    pub coils: Coils,
    /// True when this poll crossed a step boundary, for callers that count.
    pub stepped: bool,
}

/// Decides when to step, how far, and when to let go.
#[derive(Clone, Copy, Debug)]
pub struct Planner {
    seq: Sequencer,
    /// Net steps since start-up. Signed, and not wrapped: at the maximum rate
    /// this takes over a hundred million years to overflow.
    position: i64,
    /// Steps left in a bounded move, those that braking takes the wrong way
    /// among them. `None` while jogging.
    remaining: Option<u32>,
    /// The rate being stepped at now, ramped towards `target_rate`.
    rate: i32,
    /// What was asked for. The rotor has to be brought to it, not thrown at it.
    target_rate: i32,
    /// When the ramp was last advanced.
    ramped_at_us: u64,
    /// When the current command stops being honoured.
    expires_at_us: u64,
    /// When the last step was taken. The next one is due an interval after it,
    /// computed from the rate *now*.
    last_step_us: u64,
    /// When holding position stops and the windings are released.
    release_at_us: u64,
    holding: bool,
    /// How hard to accelerate, in steps per second squared.
    accel: i32,
    /// The highest command sequence applied so far. See [`Planner::accept`].
    last_seq: i64,
}

/// What a planner has in mind, with its numbers and its clock unbounded.
pub struct PlannerState {
    pub mode: StepMode,
    pub index: int,
    pub position: int,
    pub remaining: Option<u32>,
    pub rate: int,
    pub target: int,
    pub ramped_at: int,
    pub expires_at: int,
    pub last_step: int,
    pub release_at: int,
    pub holding: bool,
    pub accel: int,
    pub last_seq: int,
}

pub open spec fn sign(n: int) -> int {
    if n > 0 {
        1
    } else if n < 0 {
        -1
    } else {
        0
    }
}

/// `amount`, in the direction of `n`.
pub open spec fn along(n: int, amount: int) -> int {
    if n > 0 {
        amount
    } else if n < 0 {
        -amount
    } else {
        0
    }
}

pub open spec fn size(n: int) -> int {
    if n < 0 {
        -n
    } else {
        n
    }
}

/// `n` held between `low` and `high`.
pub open spec fn held(n: int, low: int, high: int) -> int {
    if n < low {
        low
    } else if n > high {
        high
    } else {
        n
    }
}

/// Does `n` lie between two numbers, themselves among them?
pub open spec fn between(one: int, n: int, other: int) -> bool {
    one <= n <= other || other <= n <= one
}

/// Time from `since` to `now`, nothing if the clock ran backwards.
pub open spec fn elapsed(now: int, since: int) -> int {
    if now < since {
        0
    } else {
        now - since
    }
}

/// The longest that a step can take, in microseconds: that of one step per
/// second.
pub const LONGEST_STEP_US: u64 = 1_000_000;

/// The most that a bounded move can have left: the most it can be asked for,
/// and whatever braking from the highest rate can add.
pub const MOST_LEFT: u32 = 3_148_484_648;

impl PlannerState {
    pub open spec fn wf(self) -> bool {
        &&& 0 <= self.index < self.mode.cycle()
        &&& size(self.rate) <= MAX_STEPS_PER_S
        &&& size(self.target) <= MAX_STEPS_PER_S
        &&& MIN_ACCEL_STEPS_PER_S2 <= self.accel <= MAX_ACCEL_STEPS_PER_S2
        &&& self.rate != 0 || self.target != 0 ==> self.holding
        &&& self.rate != 0 ==> self.ramped_at <= self.last_step + LONGEST_STEP_US
        &&& self.remaining matches Some(left) ==> left > 0 && self.target != 0 && self.expires_at
            == u64::MAX && left + self.braking() <= MOST_LEFT
    }

    /// Before anything was asked of it.
    pub open spec fn fresh(mode: StepMode) -> PlannerState {
        PlannerState {
            mode,
            index: 0,
            position: 0,
            remaining: None,
            rate: 0,
            target: 0,
            ramped_at: 0,
            expires_at: 0,
            last_step: 0,
            release_at: 0,
            holding: false,
            accel: ACCEL_STEPS_PER_S2 as int,
            last_seq: i64::MIN as int,
        }
    }

    /// Does it still turn the other way than it is to?
    pub open spec fn opposed(self) -> bool {
        self.rate != 0 && sign(self.rate) == -sign(self.target)
    }

    /// A bound on the steps that it can still take the wrong way: each of them
    /// lowers the rate, or brings the step clock nearer to the ramp's.
    pub open spec fn braking(self) -> int {
        if self.opposed() {
            size(self.rate) * (LONGEST_STEP_US + 1) + elapsed(self.ramped_at, self.last_step)
        } else {
            0
        }
    }

    /// Is it at rest, with nothing asked of it?
    pub open spec fn at_rest(self) -> bool {
        self.rate == 0 && self.target == 0
    }

    pub open spec fn stopped(self, now: int) -> PlannerState {
        PlannerState {
            rate: 0,
            target: 0,
            remaining: None,
            expires_at: u64::MAX as int,
            release_at: if self.holding {
                now + HOLD_AFTER_MOTION_US
            } else {
                self.release_at
            },
            ..self
        }
    }

    /// Under way towards `rate`. A motion that already runs keeps its step
    /// clock and its ramp; one that starts does so at the rate a stepper can
    /// leave rest at, with its first step already due.
    pub open spec fn begun(self, rate: int, now: int) -> PlannerState {
        let running = PlannerState { target: rate, holding: true, ..self };
        if self.rate != 0 {
            running
        } else {
            PlannerState {
                last_step: elapsed(now, 1_000_000int / START_STEPS_PER_S as int),
                ramped_at: now,
                rate: along(rate, held(size(rate), 0, START_STEPS_PER_S as int)),
                ..running
            }
        }
    }

    pub open spec fn jogged(self, steps_per_s: int, now: int, timeout: int) -> PlannerState {
        let rate = held(steps_per_s, -(MAX_STEPS_PER_S as int), MAX_STEPS_PER_S as int);
        if rate == 0 {
            self.stopped(now)
        } else {
            PlannerState {
                remaining: None,
                expires_at: now + timeout,
                ..self.begun(rate, now)
            }
        }
    }

    pub open spec fn moved(self, steps: int, steps_per_s: int, now: int) -> PlannerState {
        let rate = held(steps_per_s, 0, MAX_STEPS_PER_S as int);
        if steps == 0 || rate == 0 {
            self.stopped(now)
        } else {
            PlannerState {
                remaining: Some(size(steps) as u32),
                expires_at: u64::MAX as int,
                ..self.begun(along(steps, rate), now)
            }
        }
    }

    /// Holding one numbered state, for at most [`MAX_HOLD_US`].
    pub open spec fn held_at(self, state: int, hold: int, now: int) -> PlannerState {
        PlannerState {
            rate: 0,
            target: 0,
            remaining: None,
            expires_at: u64::MAX as int,
            index: state % self.mode.cycle(),
            holding: true,
            release_at: now + held(hold, 0, MAX_HOLD_US as int),
            ..self
        }
    }

    /// Is motion that carries `seq` newer than all that was seen?
    pub open spec fn obeys(self, seq: Option<i64>) -> bool {
        match seq {
            None => true,
            Some(seq) => seq > self.last_seq,
        }
    }

    /// `seq` noted, if it is newer.
    pub open spec fn noted(self, seq: Option<i64>) -> PlannerState {
        match seq {
            Some(seq) if seq > self.last_seq => PlannerState { last_seq: seq as int, ..self },
            _ => self,
        }
    }

    pub open spec fn kept_alive(self, now: int, timeout: int) -> PlannerState {
        if self.remaining is None && self.target != 0 {
            PlannerState { expires_at: now + timeout, ..self }
        } else {
            self
        }
    }

    /// Is the rate being brought down, or through zero?
    pub open spec fn slowing(self) -> bool {
        self.rate != 0 && (sign(self.target) != sign(self.rate) || size(self.target) < size(
            self.rate,
        ))
    }

    /// How far the rate may change by `now`.
    pub open spec fn allowance(self, now: int) -> int {
        let accel = if self.slowing() {
            DECEL_STEPS_PER_S2 as int
        } else {
            self.accel
        };
        elapsed(now, self.ramped_at) * accel / 1_000_000
    }

    /// The rate moved towards the target by whatever the ramp allows. An
    /// allowance that rounds to nothing is left to accumulate.
    pub open spec fn ramped(self, now: int) -> PlannerState {
        let gap = self.target - self.rate;
        let change = self.allowance(now);
        if gap == 0 {
            PlannerState { ramped_at: now, ..self }
        } else if change == 0 {
            self
        } else {
            PlannerState {
                ramped_at: now,
                rate: self.rate + along(gap, held(change, 0, size(gap))),
                ..self
            }
        }
    }

    /// Microseconds between steps at the present rate.
    pub open spec fn interval(self) -> int
        recommends
            self.rate != 0,
    {
        1_000_000int / size(self.rate)
    }

    /// Has the deadline of what it is doing passed?
    pub open spec fn expired(self, now: int) -> bool {
        !self.at_rest() && now >= self.expires_at
    }

    /// The ramp brought up to `now`, or the stop that an expired deadline
    /// forces.
    pub open spec fn brought_to(self, now: int) -> PlannerState {
        if self.expired(now) {
            self.stopped(now).ramped(now)
        } else {
            self.ramped(now)
        }
    }

    /// Is a step owed?
    pub open spec fn due(self, now: int) -> bool {
        self.rate != 0 && elapsed(now, self.last_step) >= self.interval()
    }

    /// One step taken; the last of a bounded move stops it. A step the wrong
    /// way, taken while a move that reverses the motor brakes it, is one more
    /// to take.
    pub open spec fn stepped(self, now: int) -> PlannerState {
        let on = PlannerState {
            index: neighbour(self.mode, self.index, self.rate > 0),
            position: self.position + sign(self.rate),
            last_step: now,
            ..self
        };
        match self.remaining {
            None => on,
            Some(left) => if self.opposed() {
                PlannerState { remaining: Some((left + 1) as u32), ..on }
            } else if left == 1 {
                on.stopped(now)
            } else {
                PlannerState { remaining: Some((left - 1) as u32), ..on }
            },
        }
    }

    /// No step taken; a hold that has run out lets go.
    pub open spec fn rested(self, now: int) -> PlannerState {
        if self.at_rest() && now >= self.release_at {
            PlannerState { holding: false, ..self }
        } else {
            self
        }
    }

    /// The state after a poll.
    pub open spec fn polled(self, now: int) -> PlannerState {
        let brought = self.brought_to(now);
        if brought.due(now) {
            brought.stepped(now)
        } else {
            brought.rested(now)
        }
    }

    /// Does a poll take a step?
    pub open spec fn steps_at(self, now: int) -> bool {
        self.brought_to(now).due(now)
    }

    /// Does a poll stop the motor: because the deadline has passed, or with the
    /// last step of a bounded move?
    pub open spec fn stops_at(self, now: int) -> bool {
        ||| self.expired(now)
        ||| self.steps_at(now) && self.remaining == Some(1u32) && !self.brought_to(now).opposed()
    }

    /// Is there room for the hold that follows a stop, where a stop sets one?
    pub open spec fn can_hold(self, now: int) -> bool {
        self.holding ==> now + HOLD_AFTER_MOTION_US <= u64::MAX
    }

    /// Is there room for the deadline of a jog, or for the hold if it is none?
    pub open spec fn can_jog(self, steps_per_s: int, now: int, timeout: int) -> bool {
        if steps_per_s == 0 {
            self.can_hold(now)
        } else {
            now + timeout <= u64::MAX
        }
    }

    /// Is there room for the hold of a move that is none? One that is has no
    /// deadline.
    pub open spec fn can_move(self, steps: int, steps_per_s: int, now: int) -> bool {
        steps == 0 || steps_per_s == 0 ==> self.can_hold(now)
    }

    /// Is there room for the deadline that a keepalive sets, where it sets one?
    pub open spec fn can_keep_alive(self, now: int, timeout: int) -> bool {
        self.remaining is None && self.target != 0 ==> now + timeout <= u64::MAX
    }

    /// The state after polls at each of `times`, with nothing else asked.
    pub open spec fn run(self, times: Seq<int>) -> PlannerState
        decreases times.len(),
    {
        if times.len() == 0 {
            self
        } else {
            self.run(times.drop_last()).polled(times.last())
        }
    }

    /// Steps that polls at each of `times` take.
    pub open spec fn steps_taken(self, times: Seq<int>) -> nat
        decreases times.len(),
    {
        if times.len() == 0 {
            0
        } else {
            self.steps_taken(times.drop_last()) + (if self.run(times.drop_last()).steps_at(
                times.last(),
            ) {
                1nat
            } else {
                0
            })
        }
    }

    /// What the bridges are to drive.
    pub open spec fn coils(self) -> Coils {
        if self.holding {
            self.mode.excitation(self.index)
        } else {
            coils_of(0, 0)
        }
    }
}

impl View for Planner {
    type V = PlannerState;

    closed spec fn view(&self) -> PlannerState {
        PlannerState {
            mode: self.seq.stepping(),
            index: self.seq.at(),
            position: self.position as int,
            remaining: self.remaining,
            rate: self.rate as int,
            target: self.target_rate as int,
            ramped_at: self.ramped_at_us as int,
            expires_at: self.expires_at_us as int,
            last_step: self.last_step_us as int,
            release_at: self.release_at_us as int,
            holding: self.holding,
            accel: self.accel as int,
            last_seq: self.last_seq as int,
        }
    }
}

impl Default for Planner {
    fn default() -> (planner: Planner)
        ensures
            planner@.wf(),
            planner@ == PlannerState::fresh(StepMode::Half),
    {
        Planner::new(StepMode::default())
    }
}

impl Planner {
    #[must_use]
    pub fn new(mode: StepMode) -> (planner: Planner)
        ensures
            planner@.wf(),
            planner@ == PlannerState::fresh(mode),
    {
        Planner {
            seq: Sequencer::new(mode),
            position: 0,
            remaining: None,
            rate: 0,
            target_rate: 0,
            ramped_at_us: 0,
            expires_at_us: 0,
            last_step_us: 0,
            release_at_us: 0,
            holding: false,
            accel: ACCEL_STEPS_PER_S2,
            last_seq: i64::MIN,
        }
    }

    /// Should a motion command carrying this sequence number be obeyed?
    ///
    /// Jogs can overtake each other on a wireless link. The case that matters
    /// is one still in flight when the finger lifts: it lands *after* the stop
    /// and would start the motor again. So motion carries a sequence and stale
    /// motion is dropped. Commands with no sequence are always obeyed.
    ///
    /// Stopping deliberately does **not** go through here. A stop that arrives
    /// out of order must still stop.
    pub fn accept(&mut self, seq: Option<i64>) -> (obeyed: bool)
        ensures
            obeyed == old(self)@.obeys(seq),
            final(self)@ == old(self)@.noted(seq),
    {
        match seq {
            None => true,
            Some(seq) => {
                if seq > self.last_seq {
                    self.last_seq = seq;
                    true
                } else {
                    false
                }
            },
        }
    }

    /// Record a sequence without gating on it, for commands that always run.
    pub fn observe(&mut self, seq: Option<i64>)
        ensures
            final(self)@ == old(self)@.noted(seq),
    {
        if let Some(seq) = seq {
            if seq > self.last_seq {
                self.last_seq = seq;
            }
        }
    }

    /// How hard the rate is currently ramped up.
    #[must_use]
    pub fn accel(&self) -> (accel: i32)
        ensures
            accel == self@.accel,
    {
        self.accel
    }

    /// Retune the acceleration, clamped to something that still ramps.
    ///
    /// Takes effect on the next poll, including part-way through a move.
    pub fn set_accel(&mut self, steps_per_s2: i32)
        ensures
            final(self)@ == (PlannerState {
                accel: held(
                    steps_per_s2 as int,
                    MIN_ACCEL_STEPS_PER_S2 as int,
                    MAX_ACCEL_STEPS_PER_S2 as int,
                ),
                ..old(self)@
            }),
            old(self)@.wf() ==> final(self)@.wf(),
    {
        self.accel = if steps_per_s2 < MIN_ACCEL_STEPS_PER_S2 {
            MIN_ACCEL_STEPS_PER_S2
        } else if steps_per_s2 > MAX_ACCEL_STEPS_PER_S2 {
            MAX_ACCEL_STEPS_PER_S2
        } else {
            steps_per_s2
        };
    }

    #[must_use]
    pub fn position(&self) -> (position: i64)
        ensures
            position == self@.position,
    {
        self.position
    }

    /// The rate being stepped at right now.
    #[must_use]
    pub fn rate(&self) -> (rate: i32)
        ensures
            rate == self@.rate,
    {
        self.rate
    }

    /// The rate being ramped towards.
    #[must_use]
    pub fn target_rate(&self) -> (rate: i32)
        ensures
            rate == self@.target,
    {
        self.target_rate
    }

    #[must_use]
    pub fn is_moving(&self) -> (moving: bool)
        ensures
            moving == (self@.rate != 0),
    {
        self.rate != 0
    }

    /// Steps left in a bounded move, or `None` while jogging or stopped.
    #[must_use]
    pub fn remaining(&self) -> (remaining: Option<u32>)
        ensures
            remaining == self@.remaining,
    {
        self.remaining
    }

    /// Are the windings drawing current — moving, or holding position?
    #[must_use]
    pub fn is_energised(&self) -> (energised: bool)
        ensures
            energised == self@.holding,
            self@.wf() && self@.rate != 0 ==> energised,
    {
        self.holding
    }

    /// Push a jog's deadline out without changing anything about the motion.
    ///
    /// Only a jog has a deadline. A bounded move ends by itself and must not
    /// have one invented for it, and something already stopped must not be
    /// given a reason to start.
    pub fn keepalive(&mut self, now_us: u64)
        requires
            old(self)@.can_keep_alive(now_us as int, JOG_TIMEOUT_US as int),
        ensures
            final(self)@ == old(self)@.kept_alive(now_us as int, JOG_TIMEOUT_US as int),
            old(self)@.remaining is Some || old(self)@.target == 0 ==> *final(self) == *old(self),
            old(self)@.wf() ==> final(self)@.wf(),
    {
        self.keepalive_for(now_us, JOG_TIMEOUT_US);
    }

    /// A keepalive that grants a stated time. See [`Planner::jog_for`].
    pub fn keepalive_for(&mut self, now_us: u64, timeout_us: u64)
        requires
            old(self)@.can_keep_alive(now_us as int, timeout_us as int),
        ensures
            final(self)@ == old(self)@.kept_alive(now_us as int, timeout_us as int),
            old(self)@.remaining is Some || old(self)@.target == 0 ==> *final(self) == *old(self),
            old(self)@.wf() ==> final(self)@.wf(),
    {
        if self.remaining.is_none() && self.target_rate != 0 {
            self.expires_at_us = now_us + timeout_us;
        }
    }

    /// Run at a signed rate until told otherwise — or until the jog expires.
    ///
    /// Call again to refresh it. A rate of zero stops, which is what the
    /// trackpad sends when a finger lifts inside the dead zone.
    pub fn jog(&mut self, steps_per_s: i32, now_us: u64)
        requires
            old(self)@.wf(),
            old(self)@.can_jog(steps_per_s as int, now_us as int, JOG_TIMEOUT_US as int),
        ensures
            final(self)@ == old(self)@.jogged(
                steps_per_s as int,
                now_us as int,
                JOG_TIMEOUT_US as int,
            ),
            final(self)@.wf(),
    {
        self.jog_for(steps_per_s, now_us, JOG_TIMEOUT_US);
    }

    /// A jog that is honoured for a stated time rather than the default.
    ///
    /// A persistent link reports its disconnect, and the motor is stopped by
    /// the socket closing; there the deadline is a second line of defence, and
    /// it costs nothing to make it tolerant of a network that hiccups.
    pub fn jog_for(&mut self, steps_per_s: i32, now_us: u64, timeout_us: u64)
        requires
            old(self)@.wf(),
            old(self)@.can_jog(steps_per_s as int, now_us as int, timeout_us as int),
        ensures
            final(self)@ == old(self)@.jogged(
                steps_per_s as int,
                now_us as int,
                timeout_us as int,
            ),
            final(self)@.wf(),
    {
        let limit: i32 = MAX_STEPS_PER_S as i32;
        let clamped: i32 = if steps_per_s < -limit {
            -limit
        } else if steps_per_s > limit {
            limit
        } else {
            steps_per_s
        };
        if clamped == 0 {
            self.stop(now_us);
            return;
        }
        self.remaining = None;
        self.begin(clamped, now_us);
        self.expires_at_us = now_us + timeout_us;
    }

    /// Move a fixed number of steps and stop. Negative goes the other way.
    ///
    /// Counted from where it stands now, also while it turns the other way: a
    /// step that braking still takes is made good afterwards.
    ///
    /// No deadline: a bounded move ends by itself, so there is nothing for a
    /// watchdog to rescue.
    pub fn move_by(&mut self, steps: i32, steps_per_s: u32, now_us: u64)
        requires
            old(self)@.wf(),
            old(self)@.can_move(steps as int, steps_per_s as int, now_us as int),
        ensures
            final(self)@ == old(self)@.moved(steps as int, steps_per_s as int, now_us as int),
            final(self)@.wf(),
    {
        if steps == 0 || steps_per_s == 0 {
            self.stop(now_us);
            return;
        }
        let rate: i32 = if steps_per_s < MAX_STEPS_PER_S {
            steps_per_s as i32
        } else {
            MAX_STEPS_PER_S as i32
        };
        let count: u32 = if steps > 0 {
            steps as u32
        } else {
            (-(steps as i64)) as u32
        };
        self.remaining = Some(count);
        self.begin(if steps > 0 { rate } else { -rate }, now_us);
        self.expires_at_us = u64::MAX;
    }

    fn begin(&mut self, rate: i32, now_us: u64)
        requires
            rate != 0,
            size(rate as int) <= MAX_STEPS_PER_S,
        ensures
            final(self)@ == old(self)@.begun(rate as int, now_us as int),
    {
        if self.rate == 0 {
            self.last_step_us = now_us.saturating_sub(1_000_000 / START_STEPS_PER_S as u64);
            self.ramped_at_us = now_us;
            self.rate = if rate > START_STEPS_PER_S {
                START_STEPS_PER_S
            } else if rate < -START_STEPS_PER_S {
                -START_STEPS_PER_S
            } else {
                rate
            };
        }
        self.target_rate = rate;
        self.holding = true;
    }

    /// Move `rate` towards `target_rate` by whatever the ramp allows.
    fn ramp(&mut self, now_us: u64)
        requires
            old(self)@.wf(),
        ensures
            final(self)@ == old(self)@.ramped(now_us as int),
    {
        if self.rate == self.target_rate {
            self.ramped_at_us = now_us;
            return;
        }
        let elapsed_us: u64 = now_us.saturating_sub(self.ramped_at_us);
        let gap: i32 = self.target_rate - self.rate;
        let distance: i32 = if gap < 0 { -gap } else { gap };
        // Reversing counts as slowing until the rate reaches zero.
        let slowing: bool = if self.rate > 0 {
            self.target_rate < self.rate
        } else if self.rate < 0 {
            self.target_rate > self.rate
        } else {
            false
        };
        let accel: i32 = if slowing { DECEL_STEPS_PER_S2 } else { self.accel };
        proof {
            assert(slowing == old(self)@.slowing());
            let (a, b) = (elapsed_us as int, accel as int);
            assert(0 <= a * b <= 0xffff_ffff_ffff_ffff * 200_000) by (nonlinear_arith)
                requires
                    0 <= a <= 0xffff_ffff_ffff_ffff,
                    0 <= b <= 200_000,
            ;
        }
        let change: u128 = elapsed_us as u128 * accel as u128 / 1_000_000;
        if change == 0 {
            return;
        }
        self.ramped_at_us = now_us;
        let by: i32 = if change < distance as u128 {
            change as i32
        } else {
            distance
        };
        if gap > 0 {
            self.rate = self.rate + by;
        } else {
            self.rate = self.rate - by;
        }
    }

    /// Stop stepping but keep position, until the hold time runs out.
    ///
    /// Immediate, not ramped. Everything that calls this is either a deadline
    /// that expired or somebody asking it to stop, and neither is a moment to
    /// keep turning through a deceleration curve.
    pub fn stop(&mut self, now_us: u64)
        requires
            old(self)@.can_hold(now_us as int),
        ensures
            final(self)@ == old(self)@.stopped(now_us as int),
            old(self)@.wf() ==> final(self)@.wf(),
    {
        self.rate = 0;
        self.target_rate = 0;
        self.remaining = None;
        self.expires_at_us = u64::MAX;
        if self.holding {
            self.release_at_us = now_us + HOLD_AFTER_MOTION_US;
        }
    }

    /// Hold one excitation state so the bridges can be measured.
    ///
    /// Not part of driving a motor: this is for putting a meter on `AOUT`/`BOUT`
    /// and finding out whether the driver responds to its inputs at all. In
    /// half-step, state 0 energises coil A alone and state 2 coil B alone,
    /// which is what isolates one bridge from the other.
    ///
    /// Always bounded by [`MAX_HOLD_US`]; a motion that was under way ends.
    pub fn hold_state(&mut self, state: u8, hold_us: u64, now_us: u64)
        requires
            old(self)@.wf(),
            now_us + held(hold_us as int, 0, MAX_HOLD_US as int) <= u64::MAX,
        ensures
            final(self)@ == old(self)@.held_at(state as int, hold_us as int, now_us as int),
            final(self)@.wf(),
    {
        self.rate = 0;
        self.target_rate = 0;
        self.remaining = None;
        self.expires_at_us = u64::MAX;
        self.seq.set_index(state);
        self.holding = true;
        let bounded: u64 = if hold_us < MAX_HOLD_US { hold_us } else { MAX_HOLD_US };
        self.release_at_us = now_us + bounded;
    }

    /// Drop the windings now, without waiting for the hold to expire.
    pub fn release(&mut self, now_us: u64)
        requires
            old(self)@.can_hold(now_us as int),
        ensures
            final(self)@ == (PlannerState {
                holding: false,
                ..old(self)@.stopped(now_us as int)
            }),
            old(self)@.wf() ==> final(self)@.wf(),
    {
        self.stop(now_us);
        self.holding = false;
    }

    /// Advance to `now_us` and report what the bridges should be driving.
    ///
    /// At most one step per call. The caller polls faster than the step rate,
    /// so catching up in a burst would only bunch steps together — which a
    /// stepper answers by slipping, not by moving faster.
    pub fn poll(&mut self, now_us: u64) -> (output: Output)
        requires
            old(self)@.wf(),
            old(self)@.stops_at(now_us as int) ==> now_us + HOLD_AFTER_MOTION_US <= u64::MAX,
            i64::MIN <= old(self)@.polled(now_us as int).position <= i64::MAX,
        ensures
            final(self)@ == old(self)@.polled(now_us as int),
            final(self)@.wf(),
            output.stepped == old(self)@.steps_at(now_us as int),
            output.coils == final(self)@.coils(),
            output.stepped == (final(self)@.position != old(self)@.position),
            size(final(self)@.position - old(self)@.position) <= 1,
            output.stepped ==> output.coils.driven(),
            final(self)@.accel == old(self)@.accel,
            size(final(self)@.rate) <= MAX_STEPS_PER_S,
            final(self)@.at_rest() || {
                &&& final(self)@.target == old(self)@.target
                &&& between(old(self)@.rate, final(self)@.rate, old(self)@.target)
            },
    {
        proof {
            law_a_poll_takes_at_most_one_step(self@, now_us as int);
            law_a_poll_never_overshoots(self@, now_us as int);
            lemma_a_step_fits(self@, now_us as int);
            lemma_brought(self@, now_us as int);
        }
        if (self.rate != 0 || self.target_rate != 0) && now_us >= self.expires_at_us {
            self.stop(now_us);
        }
        self.ramp(now_us);
        if self.rate != 0 && now_us.saturating_sub(self.last_step_us) >= self.interval_us() {
            let forward: bool = self.rate > 0;
            let coils: Coils = self.seq.advance(forward);
            self.position = if forward { self.position + 1 } else { self.position - 1 };
            self.last_step_us = now_us;
            if let Some(left) = self.remaining {
                if forward != (self.target_rate > 0) {
                    self.remaining = Some(left + 1);
                } else if left == 1 {
                    self.stop(now_us);
                } else {
                    self.remaining = Some(left - 1);
                }
            }
            return Output { coils, stepped: true };
        }
        if self.holding && self.rate == 0 && self.target_rate == 0 && now_us
            >= self.release_at_us {
            self.holding = false;
        }
        Output {
            coils: if self.holding {
                self.seq.coils()
            } else {
                Coils::released()
            },
            stepped: false,
        }
    }

    fn interval_us(&self) -> (interval: u64)
        requires
            0 < size(self@.rate) <= MAX_STEPS_PER_S,
        ensures
            interval == self@.interval(),
    {
        let rate: u64 = if self.rate < 0 { (-self.rate) as u64 } else { self.rate as u64 };
        1_000_000 / rate
    }
}

/// Are all of `times` ones that a 64-bit microsecond clock can show?
pub open spec fn clock_times(times: Seq<int>) -> bool {
    forall|i: int| 0 <= i < times.len() ==> 0 <= #[trigger] times[i] < u64::MAX
}

/// The ramp moves the rate towards its target and never past it.
pub proof fn law_the_ramp_never_overshoots(state: PlannerState, now: int)
    requires
        state.wf(),
    ensures
        state.rate <= state.target ==> state.rate <= state.ramped(now).rate <= state.target,
        state.target <= state.rate ==> state.target <= state.ramped(now).rate <= state.rate,
        state.ramped(now).target == state.target,
{
    lemma_allowance(state, now);
}

proof fn lemma_allowance(state: PlannerState, now: int)
    requires
        state.wf(),
    ensures
        state.allowance(now) >= 0,
{
    let time = elapsed(now, state.ramped_at);
    let accel = if state.slowing() {
        DECEL_STEPS_PER_S2 as int
    } else {
        state.accel
    };
    assert(time * accel >= 0) by (nonlinear_arith)
        requires
            time >= 0,
            accel >= 0,
    ;
}

/// A poll keeps the planner well-formed and its acceleration, takes at most one
/// step, and moves the position exactly when it takes one, by one in the
/// direction of the rate and with the windings driven.
pub proof fn law_a_poll_takes_at_most_one_step(state: PlannerState, now: int)
    requires
        state.wf(),
    ensures
        state.polled(now).wf(),
        state.polled(now).last_seq == state.last_seq,
        state.polled(now).mode == state.mode,
        state.polled(now).accel == state.accel,
        state.polled(now).position == state.position + (if state.steps_at(now) {
            sign(state.brought_to(now).rate)
        } else {
            0
        }),
        state.steps_at(now) <==> state.polled(now).position != state.position,
        size(state.polled(now).position - state.position) <= 1,
        state.steps_at(now) ==> state.polled(now).coils().driven(),
{
    lemma_allowance(state, now);
    lemma_allowance(state.stopped(now), now);
    let brought = state.brought_to(now);
    lemma_brought(state, now);
    if brought.rate != 0 {
        lemma_interval(brought.rate);
    }
    law_the_bridges_never_brake(state.polled(now));
}

/// A poll never takes the rate past what was asked for, nor over the cap: it
/// ends between where it was and its target, unless the poll stopped the motor.
pub proof fn law_a_poll_never_overshoots(state: PlannerState, now: int)
    requires
        state.wf(),
    ensures
        size(state.polled(now).rate) <= MAX_STEPS_PER_S,
        state.polled(now).at_rest() || {
            &&& state.polled(now).target == state.target
            &&& between(state.rate, state.polled(now).rate, state.target)
        },
{
    law_a_poll_takes_at_most_one_step(state, now);
    law_the_ramp_never_overshoots(state, now);
}

proof fn lemma_interval(rate: int)
    requires
        0 < size(rate) <= MAX_STEPS_PER_S,
    ensures
        1_000 <= 1_000_000int / size(rate) <= LONGEST_STEP_US,
{
    let n = size(rate);
    assert(1_000 <= 1_000_000int / n <= 1_000_000) by (nonlinear_arith)
        requires
            0 < n <= 1_000,
    ;
}

/// What bringing the ramp up to date does for the step clock and for braking.
proof fn lemma_brought(state: PlannerState, now: int)
    requires
        state.wf(),
    ensures
        ({
            let brought = state.brought_to(now);
            &&& brought.last_step == state.last_step
            &&& size(brought.rate) <= MAX_STEPS_PER_S
            &&& brought.ramped_at == state.ramped_at || brought.ramped_at == now
            &&& brought.rate != 0 && brought.ramped_at != now ==> state.rate == brought.rate
            &&& brought.remaining is Some ==> state.remaining == brought.remaining
                && brought.target == state.target && brought.target != 0
            &&& brought.remaining is Some && brought.opposed() ==> {
                &&& state.opposed()
                &&& size(brought.rate) <= size(state.rate)
                &&& size(brought.rate) < size(state.rate) ==> brought.ramped_at == now
                &&& size(brought.rate) == size(state.rate) ==> brought.ramped_at
                    == state.ramped_at && now < state.ramped_at + 50
            }
        }),
{
    lemma_allowance(state, now);
    lemma_allowance(state.stopped(now), now);
    law_the_ramp_never_overshoots(state, now);
    if state.opposed() {
        let time = elapsed(now, state.ramped_at);
        assert(time * DECEL_STEPS_PER_S2 / 1_000_000 == 0 ==> time < 50);
    }
}

/// A step that a move counts leaves a number that a 32-bit count holds.
proof fn lemma_a_step_fits(state: PlannerState, now: int)
    requires
        state.wf(),
    ensures
        state.brought_to(now).remaining matches Some(left) ==> 0 < left <= MOST_LEFT,
{
    lemma_allowance(state, now);
    if state.opposed() {
        assert(size(state.rate) * (LONGEST_STEP_US + 1) >= 0);
    }
}

/// However long it runs, the rate stays within the cap and the windings stay
/// energised while it moves.
pub proof fn law_a_run_stays_well_formed(state: PlannerState, times: Seq<int>)
    requires
        state.wf(),
        clock_times(times),
    ensures
        state.run(times).wf(),
        size(state.run(times).rate) <= MAX_STEPS_PER_S,
        state.run(times).rate != 0 ==> state.run(times).holding,
        state.run(times).last_seq == state.last_seq,
    decreases times.len(),
{
    if times.len() > 0 {
        law_a_run_stays_well_formed(state, times.drop_last());
        law_a_poll_takes_at_most_one_step(state.run(times.drop_last()), times.last());
    }
}

/// The bridges are never braked, and carry current exactly while energised.
pub proof fn law_the_bridges_never_brake(state: PlannerState)
    requires
        state.wf(),
    ensures
        !state.coils().braked(),
        state.coils().driven() == state.holding,
{
    law_no_state_brakes_and_all_drive(state.mode, state.index);
}

/// The field turns the way the position counts: a poll that adds a step turns
/// it from coil A towards coil B by one step angle, one that takes a step away
/// turns it back by as much, and one that takes no step leaves what is driven
/// as it was, or lets go of it.
pub proof fn law_the_field_turns_with_the_position(state: PlannerState, now: int)
    requires
        state.wf(),
        state.holding,
    ensures
        ({
            let after = state.polled(now);
            let angle = match state.mode {
                StepMode::Half => 1int,
                StepMode::Full => 2int,
            };
            let moved = after.position - state.position;
            &&& moved == 1 || moved == 0 || moved == -1
            &&& moved != 0 ==> turn_between(state.coils(), after.coils()) == moved * angle
                && current_change(state.coils(), after.coils()) == angle
            &&& moved == 0 ==> after.coils() == state.coils() || !after.coils().driven()
        }),
{
    law_a_poll_takes_at_most_one_step(state, now);
    law_each_step_turns_the_field_one_step_angle(state.mode, state.index);
    law_no_state_brakes_and_all_drive(state.mode, state.index);
}

/// Steps come at the rate and no faster: a motor that still turns after a poll
/// took a step in it exactly if a step's time had passed since the last one.
pub proof fn law_steps_come_at_the_rate(state: PlannerState, now: int)
    requires
        state.wf(),
        now >= state.last_step,
    ensures
        ({
            let after = state.polled(now);
            let time = now - state.last_step;
            after.rate != 0 ==> (after.position != state.position <==> (time + 1) * size(after.rate)
                > 1_000_000)
        }),
{
    law_a_poll_takes_at_most_one_step(state, now);
    lemma_brought(state, now);
    let after = state.polled(now);
    if after.rate != 0 {
        let brought = state.brought_to(now);
        assert(brought.rate == after.rate);
        let r = size(after.rate);
        let time = now - state.last_step;
        assert(time >= 1_000_000int / r <==> (time + 1) * r > 1_000_000) by (nonlinear_arith)
            requires
                0 < r,
        ;
    }
}

/// The rate changes no faster than the ramp allows, and as fast: over the time
/// since it last changed, by the acceleration while it rises and by 20 000
/// steps per second squared while it falls, as far as its target.
pub proof fn law_the_rate_follows_the_ramp(state: PlannerState, now: int)
    requires
        state.wf(),
        now >= state.ramped_at,
        state.expires_at > now,
        state.rate != state.target,
    ensures
        ({
            let after = state.ramped(now).rate;
            let falling = state.rate > 0 && state.target < state.rate || state.rate < 0
                && state.target > state.rate;
            let most = (now - state.ramped_at) * (if falling {
                20_000int
            } else {
                state.accel
            });
            &&& size(after - state.rate) * 1_000_000 <= most
            &&& after == state.target || (size(after - state.rate) + 1) * 1_000_000 > most
            &&& state.polled(now).rate == after || state.polled(now).at_rest()
        }),
{
    lemma_allowance(state, now);
    let falling = state.rate > 0 && state.target < state.rate || state.rate < 0 && state.target
        > state.rate;
    assert(falling == state.slowing());
    let accel = if falling {
        20_000int
    } else {
        state.accel
    };
    let most = (now - state.ramped_at) * accel;
    assert(state.allowance(now) == most / 1_000_000);
    law_a_poll_takes_at_most_one_step(state, now);
    law_the_ramp_never_overshoots(state, now);
}

/// What a jog and a move ask for: the rate that was named, held to a thousand
/// steps per second either way, and for a move the steps that were named.
/// Neither moves anything by itself.
pub proof fn law_a_motion_asks_for_what_was_named(
    state: PlannerState,
    steps: int,
    steps_per_s: int,
    now: int,
    timeout: int,
)
    requires
        state.wf(),
        steps_per_s != 0,
        steps != 0,
        i32::MIN <= steps <= i32::MAX,
    ensures
        ({
            let jog = state.jogged(steps_per_s, now, timeout);
            &&& -1000 <= steps_per_s <= 1000 ==> jog.target == steps_per_s
            &&& steps_per_s > 1000 ==> jog.target == 1000
            &&& steps_per_s < -1000 ==> jog.target == -1000
            &&& jog.remaining is None
            &&& jog.position == state.position && jog.index == state.index
            &&& !jog.expired(now + timeout - 1)
            &&& jog.expired(now + timeout)
        }),
        steps_per_s > 0 ==> ({
            let moving = state.moved(steps, steps_per_s, now);
            &&& steps_per_s <= 1000 ==> moving.target == (if steps > 0 {
                steps_per_s
            } else {
                -steps_per_s
            })
            &&& steps_per_s > 1000 ==> moving.target == (if steps > 0 {
                1000int
            } else {
                -1000
            })
            &&& moving.remaining matches Some(left) && (left == steps || left == -steps)
            &&& moving.position == state.position && moving.index == state.index
            &&& forall|later: int| later < 0xffff_ffff_ffff_ffff ==> !#[trigger] moving.expired(later)
        }),
{
}

/// The times that a motor is left to itself: a jog is honoured for 400
/// milliseconds, and for 1500 on the persistent link; a stopped motor is held
/// for 400 milliseconds; a diagnostic hold lasts ten seconds at most; a motion
/// leaves rest at fifty steps per second; the acceleration is at its ceiling of
/// 200 000 until it is retuned, and never below a hundred.
pub proof fn law_the_times_and_limits_of_the_motor(
    state: PlannerState,
    now: int,
    mode: StepMode,
    hold: int,
    later: int,
)
    requires
        state.wf(),
        state.holding,
        0 <= hold,
    ensures
        ({
            let jog = state.jogged(1000, now, JOG_TIMEOUT_US as int);
            !jog.expired(now + 399_999) && jog.expired(now + 400_000)
        }),
        ({
            let jog = state.jogged(-1000, now, LINK_JOG_TIMEOUT_US as int);
            !jog.expired(now + 1_499_999) && jog.expired(now + 1_500_000)
        }),
        ({
            let stopped = state.stopped(now);
            &&& stopped.polled(now + 399_999).coils() == state.coils()
            &&& !stopped.polled(now + 400_000).coils().driven()
        }),
        state.held_at(0, hold, now).polled(later).holding == (later < now + hold && later < now
            + 10_000_000),
        state.rate == 0 ==> state.jogged(1000, now, 0).rate == 50 && state.jogged(-1000, now, 0).rate
            == -50 && state.jogged(30, now, 0).rate == 30,
        PlannerState::fresh(mode).accel == 200_000,
        100 <= state.accel <= 200_000,
{
    lemma_rest_takes_no_step(state.held_at(0, hold, now), later);
    lemma_rest_takes_no_step(state.stopped(now), now + 399_999);
    lemma_rest_takes_no_step(state.stopped(now), now + 400_000);
    law_no_state_brakes_and_all_drive(state.mode, state.index);
}

/// A bounded move ends where it was sent, from whatever motion it was ordered:
/// what it has left is at every moment the way from where it stands to there,
/// and it rests only once it has arrived.
pub proof fn law_a_bounded_move_lands_where_it_was_sent(
    state: PlannerState,
    steps: int,
    steps_per_s: int,
    now: int,
    times: Seq<int>,
)
    requires
        state.wf(),
        steps != 0,
        i32::MIN <= steps <= i32::MAX,
        steps_per_s > 0,
        0 <= now,
        clock_times(times),
    ensures
        ({
            let after = state.moved(steps, steps_per_s, now).run(times);
            match after.remaining {
                Some(left) => {
                    &&& after.position + along(steps, left as int) == state.position + steps
                    &&& sign(after.target) == sign(steps)
                },
                None => after.position == state.position + steps && after.at_rest(),
            }
        }),
    decreases times.len(),
{
    let moving = state.moved(steps, steps_per_s, now);
    lemma_a_move_is_well_formed(state, steps, steps_per_s, now);
    if times.len() > 0 {
        let earlier = times.drop_last();
        law_a_bounded_move_lands_where_it_was_sent(state, steps, steps_per_s, now, earlier);
        law_a_run_stays_well_formed(moving, earlier);
        let before = moving.run(earlier);
        lemma_allowance(before, times.last());
        lemma_brought(before, times.last());
        lemma_a_step_fits(before, times.last());
        lemma_rest_takes_no_step(before, times.last());
    }
}

proof fn lemma_a_move_is_well_formed(
    state: PlannerState,
    steps: int,
    steps_per_s: int,
    now: int,
)
    requires
        state.wf(),
        i32::MIN <= steps <= i32::MAX,
        0 <= steps_per_s,
        0 <= now,
    ensures
        state.moved(steps, steps_per_s, now).wf(),
{
    if state.rate != 0 {
        assert(size(state.rate) * (LONGEST_STEP_US + 1) <= 1_000 * (LONGEST_STEP_US + 1));
    }
}

/// A bounded move that does not have to turn the motor round takes exactly the
/// steps it was asked for, whenever and however often it is polled.
pub proof fn law_a_bounded_move_takes_exactly_its_steps(
    state: PlannerState,
    steps: int,
    steps_per_s: int,
    now: int,
    times: Seq<int>,
)
    requires
        state.wf(),
        steps != 0,
        sign(state.rate) != -sign(steps),
        i32::MIN <= steps <= i32::MAX,
        steps_per_s > 0,
        0 <= now,
        clock_times(times),
    ensures
        ({
            let moving = state.moved(steps, steps_per_s, now);
            let taken = moving.steps_taken(times);
            match moving.run(times).remaining {
                Some(left) => taken + left == size(steps) && sign(moving.run(times).rate) == sign(
                    steps,
                ),
                None => taken == size(steps) && moving.run(times).at_rest(),
            }
        }),
    decreases times.len(),
{
    lemma_a_move_is_well_formed(state, steps, steps_per_s, now);
    if times.len() > 0 {
        let moving = state.moved(steps, steps_per_s, now);
        let earlier = times.drop_last();
        law_a_bounded_move_takes_exactly_its_steps(state, steps, steps_per_s, now, earlier);
        law_a_bounded_move_lands_where_it_was_sent(state, steps, steps_per_s, now, earlier);
        law_a_run_stays_well_formed(moving, earlier);
        let before = moving.run(earlier);
        lemma_allowance(before, times.last());
        lemma_a_step_fits(before, times.last());
        lemma_rest_takes_no_step(before, times.last());
    }
}

proof fn lemma_rest_takes_no_step(state: PlannerState, now: int)
    ensures
        state.at_rest() ==> !state.steps_at(now) && state.polled(now).at_rest()
            && state.polled(now).remaining == state.remaining && state.polled(now).position
            == state.position,
{
}

/// Polls at least a second apart each take a step in the direction asked for,
/// so a move of `steps` is over after that many of them, from whatever motion
/// it was ordered.
pub proof fn law_a_bounded_move_finishes(
    state: PlannerState,
    steps: int,
    steps_per_s: int,
    now: int,
    times: Seq<int>,
)
    requires
        state.wf(),
        state.rate != 0 ==> state.last_step <= now && state.ramped_at <= now,
        steps != 0,
        i32::MIN <= steps <= i32::MAX,
        steps_per_s > 0,
        0 <= now,
        clock_times(times),
        times.len() <= size(steps),
        times.len() > 0 ==> times[0] >= now + 1_000_000,
        forall|i: int| 0 < i < times.len() ==> #[trigger] times[i] >= times[i - 1] + 1_000_000,
    ensures
        ({
            let after = state.moved(steps, steps_per_s, now).run(times);
            &&& after.position == state.position + along(steps, times.len() as int)
            &&& times.len() == size(steps) ==> after.remaining is None && after.at_rest()
            &&& times.len() < size(steps) ==> after.remaining == Some(
                (size(steps) - times.len()) as u32,
            )
            &&& 0 < times.len() < size(steps) ==> after.last_step == times.last()
                && after.ramped_at <= times.last()
        }),
    decreases times.len(),
{
    lemma_a_move_is_well_formed(state, steps, steps_per_s, now);
    let moving = state.moved(steps, steps_per_s, now);
    if times.len() > 0 {
        let earlier = times.drop_last();
        assert forall|i: int| 0 < i < earlier.len() implies #[trigger] earlier[i] >= earlier[i - 1]
            + 1_000_000 by {
            assert(earlier[i] == times[i] && earlier[i - 1] == times[i - 1]);
        }
        law_a_bounded_move_finishes(state, steps, steps_per_s, now, earlier);
        law_a_bounded_move_lands_where_it_was_sent(state, steps, steps_per_s, now, earlier);
        law_a_run_stays_well_formed(moving, earlier);
        let before = moving.run(earlier);
        let t = times.last();
        if earlier.len() > 0 {
            assert(earlier.last() == times[times.len() - 2]);
        }
        assert(before.last_step <= t - 1_000_000);
        assert(before.ramped_at <= t - 1_000_000);
        let time = elapsed(t, before.ramped_at);
        let accel = if before.slowing() {
            DECEL_STEPS_PER_S2 as int
        } else {
            before.accel
        };
        assert(time * accel >= 1_000_000 * accel) by (nonlinear_arith)
            requires
                time >= 1_000_000,
                accel >= 0,
        ;
        assert(before.allowance(t) >= accel);
        law_the_ramp_never_overshoots(before, t);
        let brought = before.brought_to(t);
        assert(sign(brought.rate) == sign(steps));
        lemma_interval(brought.rate);
    }
}

/// From its deadline on, an unrefreshed jog takes no step and is at rest after
/// the next poll, however it was polled before.
pub proof fn law_an_unrefreshed_jog_stops_itself(
    state: PlannerState,
    steps_per_s: int,
    started: int,
    timeout: int,
    times: Seq<int>,
    now: int,
)
    requires
        state.wf(),
        clock_times(times),
        0 <= started <= now,
        0 <= timeout,
        started + timeout <= now,
    ensures
        ({
            let after = state.jogged(steps_per_s, started, timeout).run(times);
            !after.steps_at(now) && after.polled(now).at_rest()
        }),
{
    let jog = state.jogged(steps_per_s, started, timeout);
    lemma_jog_keeps_its_deadline(jog, times);
    lemma_rest_takes_no_step(jog.run(times), now);
}

proof fn lemma_jog_keeps_its_deadline(jog: PlannerState, times: Seq<int>)
    requires
        jog.remaining is None,
    ensures
        jog.run(times).remaining is None,
        jog.run(times).at_rest() || jog.run(times).expires_at == jog.expires_at,
        jog.at_rest() ==> jog.run(times).at_rest(),
    decreases times.len(),
{
    if times.len() > 0 {
        lemma_jog_keeps_its_deadline(jog, times.drop_last());
        lemma_rest_takes_no_step(jog.run(times.drop_last()), times.last());
    }
}

/// Stopping is immediate; the windings hold until the hold time is up and let
/// go from then on.
pub proof fn law_a_stopped_motor_lets_go(
    state: PlannerState,
    stopped: int,
    times: Seq<int>,
    now: int,
)
    requires
        state.wf(),
        0 <= stopped,
        forall|i: int|
            0 <= i < times.len() ==> #[trigger] times[i] < stopped + HOLD_AFTER_MOTION_US,
    ensures
        state.stopped(stopped).at_rest(),
        ({
            let after = state.stopped(stopped).run(times);
            &&& after.at_rest()
            &&& after.position == state.position
            &&& !after.steps_at(now)
            &&& now >= stopped + HOLD_AFTER_MOTION_US ==> after.polled(now).coils() == coils_of(0, 0)
            &&& state.holding && now < stopped + HOLD_AFTER_MOTION_US ==> after.polled(now).coils()
                == state.mode.excitation(state.index)
        }),
{
    lemma_rest_keeps_its_hold(state.stopped(stopped), times);
}

proof fn lemma_rest_keeps_its_hold(state: PlannerState, times: Seq<int>)
    requires
        state.at_rest(),
    ensures
        ({
            let after = state.run(times);
            &&& after.at_rest()
            &&& after.position == state.position
            &&& after.index == state.index
            &&& after.mode == state.mode
            &&& after.release_at == state.release_at
            &&& after.holding ==> state.holding
            &&& (forall|i: int| 0 <= i < times.len() ==> #[trigger] times[i] < state.release_at)
                ==> after.holding == state.holding
        }),
    decreases times.len(),
{
    if times.len() > 0 {
        let earlier = times.drop_last();
        lemma_rest_keeps_its_hold(state, earlier);
        lemma_rest_takes_no_step(state.run(earlier), times.last());
        if forall|i: int| 0 <= i < times.len() ==> #[trigger] times[i] < state.release_at {
            assert forall|i: int| 0 <= i < earlier.len() implies #[trigger] earlier[i]
                < state.release_at by {
                assert(earlier[i] == times[i]);
            }
            assert(times.last() < state.release_at);
        }
    }
}

/// A diagnostic hold energises the state it was asked for, takes no step, and
/// is over by [`MAX_HOLD_US`] whatever was asked and whatever ran before.
pub proof fn law_a_diagnostic_hold_ends_by_itself(
    state: PlannerState,
    numbered: int,
    hold: int,
    held_from: int,
    times: Seq<int>,
    now: int,
)
    requires
        state.wf(),
        0 <= numbered,
        0 <= hold,
        held_from <= now,
    ensures
        ({
            let after = state.held_at(numbered, hold, held_from).run(times);
            &&& !after.steps_at(now)
            &&& now >= held_from + MAX_HOLD_US ==> after.polled(now).coils() == coils_of(0, 0)
            &&& now >= held_from + hold ==> after.polled(now).coils() == coils_of(0, 0)
            &&& times.len() == 0 && now < held_from + hold && now < held_from + MAX_HOLD_US
                ==> after.polled(now).coils() == state.mode.excitation(
                numbered % state.mode.cycle(),
            )
        }),
{
    let holding = state.held_at(numbered, hold, held_from);
    lemma_rest_keeps_its_hold(holding, times);
    lemma_rest_takes_no_step(holding.run(times), now);
}

/// Motion no newer than a stop that was noted is refused from then on, and the
/// stopped motor stays where it is.
pub proof fn law_a_stale_jog_cannot_outlive_the_stop_that_followed_it(
    state: PlannerState,
    stop: i64,
    stale: i64,
    now: int,
    times: Seq<int>,
)
    requires
        state.wf(),
        stale <= stop,
        clock_times(times),
    ensures
        ({
            let after = state.noted(Some(stop)).stopped(now).run(times);
            !after.obeys(Some(stale)) && after.at_rest() && after.position == state.position
        }),
{
    let stopped = state.noted(Some(stop)).stopped(now);
    law_a_run_stays_well_formed(stopped, times);
    lemma_rest_keeps_its_hold(stopped, times);
}

/// Commands without a sequence are always obeyed, and raise no bar for those
/// that carry one.
pub proof fn law_unsequenced_commands_are_always_obeyed(state: PlannerState, seq: Option<i64>)
    ensures
        state.obeys(None),
        state.noted(None) == state,
        state.noted(seq).last_seq >= state.last_seq,
{
}

/// A keepalive renews a jog and does nothing else: it starts no stopped motor
/// and gives no bounded move a deadline.
pub proof fn law_a_keepalive_only_renews_a_jog(state: PlannerState, now: int, timeout: int)
    requires
        state.wf(),
    ensures
        state.at_rest() ==> state.kept_alive(now, timeout) == state,
        state.remaining is Some ==> state.kept_alive(now, timeout) == state,
        state.kept_alive(now, timeout).rate == state.rate,
        state.kept_alive(now, timeout).target == state.target,
        state.kept_alive(now, timeout).last_step == state.last_step,
{
}

/// Refreshing a running jog leaves its step clock, its ramp and its rate
/// alone, so a refresh faster than the step interval cannot stall it.
pub proof fn law_refreshing_a_jog_does_not_stall_it(
    state: PlannerState,
    steps_per_s: int,
    now: int,
    timeout: int,
)
    requires
        state.wf(),
        state.rate != 0,
        steps_per_s != 0,
    ensures
        ({
            let after = state.jogged(steps_per_s, now, timeout);
            &&& after.last_step == state.last_step
            &&& after.ramped_at == state.ramped_at
            &&& after.rate == state.rate
            &&& after.position == state.position
            &&& after.expires_at == now + timeout
        }),
{
}

/// A motion leaves rest at the start rate or below it, with its first step due
/// at once.
pub proof fn law_a_motion_leaves_rest_gently(
    state: PlannerState,
    steps_per_s: int,
    now: int,
    timeout: int,
)
    requires
        state.wf(),
        state.rate == 0,
        steps_per_s != 0,
        now >= 20_000,
    ensures
        ({
            let after = state.jogged(steps_per_s, now, timeout);
            &&& 0 < size(after.rate) <= START_STEPS_PER_S
            &&& sign(after.rate) == sign(steps_per_s)
            &&& size(after.target) <= MAX_STEPS_PER_S
            &&& size(after.rate) == START_STEPS_PER_S ==> after.due(now)
        }),
{
}

/// `field` as a JSON key: in quotes.
pub open spec fn quoted(field: Seq<char>) -> Seq<char> {
    seq!['"'] + field + seq!['"']
}

/// The integer that starts `chars`, if one does and it fits: an optional minus
/// sign and decimal digits, whose number is at most the largest `i64`.
pub open spec fn integer_at(chars: Seq<char>) -> Option<int> {
    let negative = chars.len() > 0 && chars[0] == '-';
    let digits = if negative {
        chars.skip(1)
    } else {
        chars
    };
    let len = text::digits_len(digits) as int;
    let value = text::decimal_value(digits.take(len));
    if len == 0 || value > i64::MAX {
        None
    } else if negative {
        Some(-(value as int))
    } else {
        Some(value as int)
    }
}

/// The integer that follows the first place where the quoted `field` is a key:
/// where a colon stands after it, white space aside.
pub open spec fn json_integer(body: Seq<char>, field: Seq<char>) -> Option<int>
    decreases body.len(),
{
    let key = quoted(field);
    if !text::contains(body, key) {
        None
    } else {
        let at = choose|i: int| text::first_at(body, key, i);
        if !text::first_at(body, key, at) {
            None
        } else {
            let after = body.skip(at + key.len());
            let rest = text::trim_start(after);
            if rest.len() > 0 && rest[0] == ':' {
                integer_at(text::trim_start(rest.skip(1)))
            } else {
                json_integer(after, field)
            }
        }
    }
}

proof fn lemma_first_at_unique(body: Seq<char>, key: Seq<char>, i: int, j: int)
    requires
        text::first_at(body, key, i),
        text::first_at(body, key, j),
    ensures
        i == j,
{
    if i < j {
        assert(text::occurs_at(body, key, i));
    } else if j < i {
        assert(text::occurs_at(body, key, j));
    }
}

/// Pull one integer field out of a small JSON object.
///
/// Deliberately strict about nothing except the number: anything it cannot
/// read comes back as `None`. Out-of-range is `None` too, not a wrapped value.
#[must_use]
pub fn json_i32(body: &str, field: &str) -> (value: Option<i32>)
    ensures
        value == (match json_integer(body@, field@) {
            Some(n) if i32::MIN <= n <= i32::MAX => Some(n as i32),
            _ => None,
        }),
{
    match json_i64(body, field) {
        Some(value) => if value < i32::MIN as i64 || value > i32::MAX as i64 {
            None
        } else {
            Some(value as i32)
        },
        None => None,
    }
}

/// The same, for values that do not fit in 32 bits — command sequence numbers
/// are millisecond timestamps, which passed `i32` in 1970.
#[must_use]
pub fn json_i64(body: &str, field: &str) -> (value: Option<i64>)
    ensures
        value == (match json_integer(body@, field@) {
            Some(n) => Some(n as i64),
            None => None,
        }),
        json_integer(body@, field@) matches Some(n) ==> -i64::MAX <= n <= i64::MAX,
{
    let chars: Vec<char> = text::chars_of(body);
    let mut key: Vec<char> = Vec::new();
    key.push('"');
    let mut name: Vec<char> = text::chars_of(field);
    key.append(&mut name);
    key.push('"');
    assert(key@ =~= quoted(field@));
    let len: usize = chars.len();
    let mut search: usize = 0;
    assert(body@.skip(0) =~= body@);
    loop
        invariant
            chars@ == body@,
            key@ == quoted(field@),
            len == chars@.len(),
            search <= len,
            json_integer(body@, field@) == json_integer(body@.skip(search as int), field@),
        decreases chars@.len() - search,
    {
        let ghost tail = body@.skip(search as int);
        match text::find_from(chars.as_slice(), key.as_slice(), search) {
            None => return None,
            Some(found) => {
                proof {
                    assert(text::occurs_at(tail, key@, found - search));
                    let at = choose|i: int| text::first_at(tail, key@, i);
                    lemma_first_at_unique(tail, key@, at, found - search);
                }
                let after: usize = found + key.len();
                assert(tail.skip(found - search + key@.len()) =~= body@.skip(after as int));
                let colon: usize = text::skip_space(chars.as_slice(), after);
                let ghost rest = body@.skip(colon as int);
                if colon == len || chars[colon] != ':' {
                    search = after;
                } else {
                    assert(rest.skip(1) =~= body@.skip(colon + 1));
                    let start: usize = text::skip_space(chars.as_slice(), colon + 1);
                    return integer_from(chars.as_slice(), start);
                }
            },
        }
    }
}

/// The integer at `start`, read as [`integer_at`] says.
fn integer_from(chars: &[char], start: usize) -> (value: Option<i64>)
    requires
        start <= chars@.len(),
    ensures
        ({
            let read = integer_at(chars@.skip(start as int));
            &&& read matches Some(n) ==> value == Some(n as i64) && -i64::MAX <= n <= i64::MAX
            &&& read is None ==> value is None
        }),
{
    let negative: bool = start < chars.len() && chars[start] == '-';
    let from: usize = if negative { start + 1 } else { start };
    let to: usize = text::skip_digits(chars, from);
    proof {
        let rest = chars@.skip(start as int);
        let digits = chars@.skip(from as int);
        if negative {
            assert(rest.skip(1) =~= digits);
        }
        assert(digits.take(to - from) =~= chars@.subrange(from as int, to as int));
    }
    if to == from {
        return None;
    }
    match text::read_decimal(chars, from, to, i64::MAX as u64) {
        None => None,
        Some(magnitude) => if negative {
            Some(-(magnitude as i64))
        } else {
            Some(magnitude as i64)
        },
    }
}

/// Does a colon follow the quoted name at `at`, white space aside?
pub open spec fn is_key_at(body: Seq<char>, key: Seq<char>, at: int) -> bool {
    let rest = text::trim_start(body.skip(at + key.len()));
    rest.len() > 0 && rest[0] == ':'
}

/// Is a text nothing but white space?
pub open spec fn blank(chars: Seq<char>) -> bool {
    forall|i: int| 0 <= i < chars.len() ==> text::is_space(#[trigger] chars[i])
}

/// A number that is written as a field of an object is read back, whatever
/// stands around it: other fields, and white space on either side of the colon.
/// The name itself may stand before it, but not as a key, nor so that it
/// overlaps the key.
pub proof fn law_a_json_field_is_read_back(
    before: Seq<char>,
    field: Seq<char>,
    gap: Seq<char>,
    space: Seq<char>,
    n: int,
    after: Seq<char>,
)
    requires
        -i64::MAX <= n <= i64::MAX,
        blank(gap),
        blank(space),
        after.len() > 0 ==> !text::is_digit(after[0]),
        ({
            let body = before + quoted(field) + gap + seq![':'] + space + text::signed_decimal(n)
                + after;
            forall|i: int|
                0 <= i < before.len() && #[trigger] text::occurs_at(body, quoted(field), i) ==> i
                    + quoted(field).len() <= before.len() && !is_key_at(body, quoted(field), i)
        }),
    ensures
        json_integer(
            before + quoted(field) + gap + seq![':'] + space + text::signed_decimal(n) + after,
            field,
        ) == Some(n),
{
    let key = quoted(field);
    let number = text::signed_decimal(n) + after;
    let body = before + key + gap + seq![':'] + space + text::signed_decimal(n) + after;
    let at = before.len() as int;
    assert(body.subrange(at, at + key.len()) =~= key);
    let value = space + number;
    assert(body.skip(at + key.len()) =~= gap + (seq![':'] + value));
    lemma_trim(gap, seq![':'] + value);
    assert((seq![':'] + value)[0] == ':');
    assert(text::trim_start(seq![':'] + value) == seq![':'] + value);
    assert((seq![':'] + value).skip(1) =~= value);
    lemma_trim(space, number);
    lemma_key_is_found(body, field, at);
    lemma_integer_read_back(n, after);
}

/// White space at the start is trimmed, whatever follows.
proof fn lemma_trim(space: Seq<char>, rest: Seq<char>)
    requires
        blank(space),
    ensures
        text::trim_start(space + rest) == text::trim_start(rest),
    decreases space.len(),
{
    if space.len() == 0 {
        assert(space + rest =~= rest);
    } else {
        assert((space + rest)[0] == space[0]);
        assert((space + rest).skip(1) =~= space.skip(1) + rest);
        assert(blank(space.skip(1)));
        lemma_trim(space.skip(1), rest);
    }
}

/// The first place where the name is a key is the one that is read.
proof fn lemma_key_is_found(body: Seq<char>, field: Seq<char>, at: int)
    requires
        text::occurs_at(body, quoted(field), at),
        is_key_at(body, quoted(field), at),
        forall|i: int|
            0 <= i < at && #[trigger] text::occurs_at(body, quoted(field), i) ==> i + quoted(
                field,
            ).len() <= at && !is_key_at(body, quoted(field), i),
    ensures
        json_integer(body, field) == integer_at(
            text::trim_start(text::trim_start(body.skip(at + quoted(field).len())).skip(1)),
        ),
    decreases body.len(),
{
    let key = quoted(field);
    let first = lemma_there_is_a_first(body, key, at);
    let chosen = choose|i: int| text::first_at(body, key, i);
    lemma_first_at_unique(body, key, chosen, first);
    if first < at {
        let skipped = first + key.len();
        let rest = body.skip(skipped);
        assert(rest.subrange(at - skipped, at - skipped + key.len()) =~= body.subrange(
            at,
            at + key.len(),
        ));
        assert(rest.skip(at - skipped + key.len()) =~= body.skip(at + key.len()));
        assert forall|i: int|
            0 <= i < at - skipped && #[trigger] text::occurs_at(rest, key, i) implies i + key.len()
            <= at - skipped && !is_key_at(rest, key, i) by {
            assert(rest.subrange(i, i + key.len()) =~= body.subrange(
                skipped + i,
                skipped + i + key.len(),
            ));
            assert(text::occurs_at(body, key, skipped + i));
            assert(rest.skip(i + key.len()) =~= body.skip(skipped + i + key.len()));
        }
        lemma_key_is_found(rest, field, at - skipped);
    }
}

/// What stands somewhere stands somewhere first.
proof fn lemma_there_is_a_first(body: Seq<char>, key: Seq<char>, at: int) -> (first: int)
    requires
        text::occurs_at(body, key, at),
    ensures
        text::first_at(body, key, first),
        first <= at,
    decreases at,
{
    if exists|i: int| 0 <= i < at && #[trigger] text::occurs_at(body, key, i) {
        let i = choose|i: int| 0 <= i < at && #[trigger] text::occurs_at(body, key, i);
        lemma_there_is_a_first(body, key, i)
    } else {
        at
    }
}

/// Is a text a name: letters, digits and underscores of ASCII?
pub open spec fn is_name(chars: Seq<char>) -> bool {
    &&& chars.len() > 0
    &&& forall|i: int|
        0 <= i < chars.len() ==> {
            ||| 'a' <= #[trigger] chars[i] <= 'z'
            ||| 'A' <= chars[i] <= 'Z'
            ||| text::is_digit(chars[i])
            ||| chars[i] == '_'
        }
}

/// A name that stands as the value of another field is passed over, and read
/// where it stands as a key, with any white space around the colons.
pub proof fn law_a_name_that_stands_as_a_value_is_passed_over(
    other: Seq<char>,
    field: Seq<char>,
    gaps: (Seq<char>, Seq<char>, Seq<char>, Seq<char>),
    n: int,
)
    requires
        is_name(other),
        is_name(field),
        other != field,
        blank(gaps.0),
        blank(gaps.1),
        blank(gaps.2),
        blank(gaps.3),
        -i64::MAX <= n <= i64::MAX,
    ensures
        json_integer(
            seq!['{'] + quoted(other) + gaps.0 + seq![':'] + gaps.1 + quoted(field) + seq![',']
                + quoted(field) + gaps.2 + seq![':'] + gaps.3 + text::signed_decimal(n) + seq!['}'],
            field,
        ) == Some(n),
{
    let key = quoted(field);
    let before = seq!['{'] + quoted(other) + gaps.0 + seq![':'] + gaps.1 + key + seq![','];
    let body = before + key + gaps.2 + seq![':'] + gaps.3 + text::signed_decimal(n) + seq!['}'];
    let o = other.len() as int;
    let c = gaps.0.len() + 1 + gaps.1.len() as int;
    let f = field.len() as int;
    let value = o + c + 3;
    assert(before.len() == value + f + 3);
    assert forall|i: int| 0 <= i < before.len() && #[trigger] text::occurs_at(body, key, i) implies i
        + key.len() <= before.len() && !is_key_at(body, key, i) by {
        let found = body.subrange(i, i + key.len());
        assert(found[0] == body[i] && found[1] == body[i + 1]);
        assert(found[f + 1] == body[i + f + 1]);
        assert(key[0] == '"' && key[1] == field[0] && key[f + 1] == '"');
        if i == 0 {
            assert(body[0] == '{');
        } else if i == 1 {
            if o < f {
                assert(found[o + 1] == body[o + 2] && body[o + 2] == '"');
                assert(key[o + 1] == field[o]);
            } else if f < o {
                assert(body[f + 2] == other[f]);
            } else {
                assert forall|j: int| 0 <= j < f implies other[j] == field[j] by {
                    assert(found[j + 1] == body[j + 2] && body[j + 2] == other[j]);
                    assert(key[j + 1] == field[j]);
                }
                assert(other =~= field);
            }
        } else if i < o + 2 {
            assert(body[i] == other[i - 2]);
        } else if i == o + 2 {
            assert(body[i + 1] == (gaps.0 + seq![':'] + gaps.1)[0]);
            if gaps.0.len() > 0 {
                assert(text::is_space(gaps.0[0]));
            }
        } else if i < value {
            assert(body[i] == (gaps.0 + seq![':'] + gaps.1)[i - o - 3]);
            if i - o - 3 < gaps.0.len() {
                assert(text::is_space(gaps.0[i - o - 3]));
            } else if i - o - 3 > gaps.0.len() {
                assert(text::is_space(gaps.1[i - o - 3 - gaps.0.len() - 1]));
            }
        } else if i == value {
            let rest = body.skip(i + key.len());
            assert(rest[0] == body[value + f + 2] && body[value + f + 2] == ',');
            assert(text::trim_start(rest) == rest);
        } else if i < value + f + 1 {
            assert(body[i] == field[i - value - 1]);
        } else if i == value + f + 1 {
            assert(body[i + 1] == ',');
        } else {
            assert(body[i] == ',');
        }
    }
    law_a_json_field_is_read_back(before, field, gaps.2, gaps.3, n, seq!['}']);
}

proof fn lemma_integer_read_back(n: int, after: Seq<char>)
    requires
        -i64::MAX <= n <= i64::MAX,
        after.len() > 0 ==> !text::is_digit(after[0]),
    ensures
        integer_at(text::trim_start(text::signed_decimal(n) + after)) == Some(n),
{
    let magnitude = text::decimal(size(n) as nat);
    text::law_decimal_value_undoes_decimal(size(n) as nat);
    let tail = magnitude + after;
    let all = text::signed_decimal(n) + after;
    lemma_digits_len_of(magnitude, after);
    assert(tail.take(magnitude.len() as int) =~= magnitude);
    assert(text::is_digit(magnitude[0]));
    if n < 0 {
        assert(all[0] == '-');
        assert(all.skip(1) =~= tail);
    } else {
        assert(all =~= tail);
        assert(all[0] == magnitude[0]);
    }
    assert(text::trim_start(all) == all);
}

proof fn lemma_digits_len_of(digits: Seq<char>, after: Seq<char>)
    requires
        forall|i: int| 0 <= i < digits.len() ==> text::is_digit(#[trigger] digits[i]),
        after.len() > 0 ==> !text::is_digit(after[0]),
    ensures
        text::digits_len(digits + after) == digits.len(),
    decreases digits.len(),
{
    let all = digits + after;
    if digits.len() == 0 {
        assert(all =~= after);
    } else {
        assert(all[0] == digits[0]);
        assert(all.skip(1) =~= digits.skip(1) + after);
        lemma_digits_len_of(digits.skip(1), after);
    }
}

/// The state that is held is the one that was named, whatever was driven before:
/// in half steps each of the eight by its number, in full steps each of the
/// four.
pub proof fn law_the_held_state_is_the_one_named(
    state: PlannerState,
    named: int,
    hold: int,
    now: int,
)
    requires
        0 <= named < 8,
    ensures
        ({
            let after = state.held_at(named, hold, now);
            &&& state.mode == StepMode::Half ==> after.index == named
            &&& state.mode == StepMode::Full ==> after.index == (if named < 4 {
                named
            } else {
                named - 4
            })
            &&& after.holding && after.rate == 0 && after.target == 0 && after.remaining is None
            &&& after.position == state.position
        }),
{
}

} // verus!
