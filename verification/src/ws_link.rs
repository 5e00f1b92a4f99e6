//! One socket, held open, carrying the trackpad.
//!
//! The wire format lives in [`crate::link`]. This decides what a persistent
//! connection makes possible that request-per-command never could.
//!
//! # A closed socket stops the motor
//!
//! Over HTTP there is no such thing as a client going away — there is only a
//! client that has not sent anything recently, which is why the jog has a
//! watchdog. Here the transport reports the disconnect, so closing the tab,
//! walking out of Wi-Fi range or killing the browser stops the motor at once
//! instead of up to [`crate::stepper::JOG_TIMEOUT_US`] later. The watchdog
//! stays for the case the socket cannot detect: a client that is still
//! connected and has stopped thinking.
//!
//! # Nothing is sent when nothing changes
//!
//! Status is pushed only when it differs from what was last pushed, so a
//! station nobody is touching puts nothing on the air at all.

use crate::link::{self, Command, Status};
use crate::stepper::{self, Planner, LINK_JOG_TIMEOUT_US};
use vstd::prelude::*;

verus! {

/// How often the pusher looks for a change.
///
/// This paces the *display*, not the motor: commands are acted on the moment
/// they arrive, and nothing waits for this.
pub const PUSH_PERIOD_MS: u64 = 25;

/// Big enough for any frame the protocol defines, with room to recognise one
/// that is too long and disconnect rather than wedge.
pub const RECV_BUF: usize = 64;

/// The most pages that may hold the link at once.
///
/// Deliberately well under the server's socket budget, so that the link can
/// never starve the REST routes. Past this the oldest is dropped, because the
/// usual way to reach the limit is tabs nobody is looking at, and the client
/// that just connected is the one someone is actually using.
pub const MAX_CLIENTS: usize = 3;

/// What a planner's state looks like on the wire.
///
/// Saturating, not wrapping: the count is 64-bit and the wire is 32, and a
/// display that wraps to a large negative number after a very long session
/// would look like a fault rather than like a big number.
pub open spec fn shown(state: stepper::PlannerState) -> Status {
    Status {
        position: stepper::held(state.position, i32::MIN as int, i32::MAX as int) as i32,
        rate: stepper::held(state.rate, i16::MIN as int, i16::MAX as int) as i16,
        moving: state.rate != 0,
        energised: state.holding,
        remaining: state.remaining,
    }
}

/// Read the planner into something sendable.
pub fn snapshot(planner: &Planner) -> (status: Status)
    ensures
        status == shown(planner@),
{
    let position: i64 = planner.position();
    let rate: i32 = planner.rate();
    Status {
        position: if position < i32::MIN as i64 {
            i32::MIN
        } else if position > i32::MAX as i64 {
            i32::MAX
        } else {
            position as i32
        },
        rate: if rate < i16::MIN as i32 {
            i16::MIN
        } else if rate > i16::MAX as i32 {
            i16::MAX
        } else {
            rate as i16
        },
        moving: planner.is_moving(),
        energised: planner.is_energised(),
        remaining: planner.remaining(),
    }
}

fn same_status(one: &Status, other: &Status) -> (same: bool)
    ensures
        same == (*one == *other),
{
    one.position == other.position && one.rate == other.rate && one.moving == other.moving
        && one.energised == other.energised && match (one.remaining, other.remaining) {
        (None, None) => true,
        (Some(a), Some(b)) => a == b,
        _ => false,
    }
}

/// What was last pushed.
pub struct Pusher {
    pub last: Option<Status>,
}

impl Pusher {
    pub fn new() -> (pusher: Pusher)
        ensures
            pusher.last is None,
    {
        Pusher { last: None }
    }

    /// What to push now, given the clients' number and the planner's state
    /// where it could be read.
    ///
    /// Unchanged means unsent. With nobody listening, whatever was last pushed
    /// is forgotten, so that the next client to arrive is told at once.
    pub fn due(&mut self, listeners: usize, status: Option<Status>) -> (push: Option<Status>)
        ensures
            push == (if listeners > 0 && status is Some && old(self).last != status {
                status
            } else {
                None
            }),
            final(self).last == (if listeners == 0 {
                None
            } else if status is Some {
                status
            } else {
                old(self).last
            }),
    {
        if listeners == 0 {
            self.last = None;
            return None;
        }
        match status {
            None => None,
            Some(now) => {
                let unchanged: bool = match self.last {
                    Some(before) => same_status(&before, &now),
                    None => false,
                };
                self.last = Some(now);
                if unchanged {
                    None
                } else {
                    Some(now)
                }
            },
        }
    }
}

/// Clients currently listening, oldest first, each by the descriptor needed to
/// hang up on it.
pub struct Clients {
    pub sockets: Vec<i32>,
}

/// The clients whose senders are still open.
pub open spec fn open_ones(sockets: Seq<i32>, open: Seq<bool>) -> Seq<i32>
    decreases sockets.len(),
{
    if sockets.len() == 0 {
        Seq::empty()
    } else {
        let kept = open_ones(sockets.drop_last(), open);
        if open[sockets.len() - 1] {
            kept.push(sockets.last())
        } else {
            kept
        }
    }
}

/// The clients other than `socket`.
pub open spec fn others(sockets: Seq<i32>, socket: i32) -> Seq<i32>
    decreases sockets.len(),
{
    if sockets.len() == 0 {
        Seq::empty()
    } else {
        let kept = others(sockets.drop_last(), socket);
        if sockets.last() != socket {
            kept.push(sockets.last())
        } else {
            kept
        }
    }
}

/// How many of the oldest clients a new one takes the place of.
pub open spec fn crowded_out(sockets: Seq<i32>) -> int {
    if sockets.len() < MAX_CLIENTS {
        0
    } else {
        sockets.len() - MAX_CLIENTS + 1
    }
}

impl Clients {
    pub fn new() -> (clients: Clients)
        ensures
            clients.sockets@.len() == 0,
    {
        Clients { sockets: Vec::new() }
    }

    /// Drops the clients that went away: `open` says of each, in order,
    /// whether its sender is still open.
    ///
    /// A client that went away leaves a sender behind, and sending to it every
    /// cycle forever is the sort of thing that works fine on a bench and fills
    /// a log in a fortnight.
    pub fn reap(&mut self, open: &[bool])
        requires
            open@.len() == old(self).sockets@.len(),
        ensures
            final(self).sockets@ == open_ones(old(self).sockets@, open@),
    {
        let mut kept: Vec<i32> = Vec::new();
        let mut at: usize = 0;
        let ghost all = self.sockets@;
        while at < self.sockets.len()
            invariant
                at <= self.sockets@.len(),
                self.sockets@ == all,
                open@.len() == all.len(),
                kept@ == open_ones(all.take(at as int), open@),
            decreases self.sockets@.len() - at,
        {
            assert(all.take(at + 1).drop_last() =~= all.take(at as int));
            if open[at] {
                kept.push(self.sockets[at]);
            }
            at += 1;
        }
        assert(all.take(at as int) =~= all);
        self.sockets = kept;
    }

    /// Takes in a new client, those that went away dropped first: who to hang
    /// up on, oldest first. `open` is as for [`Clients::reap`].
    ///
    /// Who to hang up on is decided here; the hanging up happens once no lock
    /// is held, for closing a socket has the server run the close handler, and
    /// that handler needs this list to work out whether the last client left.
    pub fn join(&mut self, socket: i32, open: &[bool]) -> (evicted: Vec<i32>)
        requires
            open@.len() == old(self).sockets@.len(),
        ensures
            ({
                let there = open_ones(old(self).sockets@, open@);
                &&& evicted@ == there.take(crowded_out(there))
                &&& final(self).sockets@ == there.skip(crowded_out(there)).push(socket)
            }),
    {
        self.reap(open);
        let mut evicted: Vec<i32> = Vec::new();
        let ghost all = self.sockets@;
        assert(all.skip(0) =~= all);
        assert(all.take(0) =~= Seq::empty());
        while self.sockets.len() >= MAX_CLIENTS
            invariant
                evicted@.len() <= crowded_out(all) <= all.len(),
                evicted@ == all.take(evicted@.len() as int),
                self.sockets@ == all.skip(evicted@.len() as int),
            decreases self.sockets@.len(),
        {
            let ghost gone = evicted@.len() as int;
            let oldest: i32 = self.sockets.remove(0);
            evicted.push(oldest);
            assert(evicted@ =~= all.take(gone + 1));
            assert(self.sockets@ =~= all.skip(gone + 1));
        }
        self.sockets.push(socket);
        evicted
    }

    /// Notes that a client's connection closed, those that went away dropped as
    /// well. Does the motor stop? `open` is as for [`Clients::reap`].
    ///
    /// A closing connection stops the motor only when it was the last one.
    /// Stopping on *any* close would be wrong the moment more than one client
    /// can exist: a stale tab going away, or one evicted to make room for
    /// somebody else, would stop a motor that a different client is actively
    /// driving.
    pub fn leave(&mut self, socket: i32, open: &[bool]) -> (stops: bool)
        requires
            open@.len() == old(self).sockets@.len(),
        ensures
            final(self).sockets@ == others(open_ones(old(self).sockets@, open@), socket),
            stops == (final(self).sockets@.len() == 0),
    {
        self.reap(open);
        let mut kept: Vec<i32> = Vec::new();
        let mut at: usize = 0;
        let ghost all = self.sockets@;
        while at < self.sockets.len()
            invariant
                at <= self.sockets@.len(),
                self.sockets@ == all,
                kept@ == others(all.take(at as int), socket),
            decreases self.sockets@.len() - at,
        {
            assert(all.take(at + 1).drop_last() =~= all.take(at as int));
            if self.sockets[at] != socket {
                kept.push(self.sockets[at]);
            }
            at += 1;
        }
        assert(all.take(at as int) =~= all);
        self.sockets = kept;
        self.sockets.len() == 0
    }
}

/// What kind of frame a socket received.
#[derive(Clone, Copy, Debug, Eq, PartialEq, Structural)]
pub enum Received {
    /// A whole binary frame.
    Binary,
    /// The client is leaving.
    Close,
    /// Anything else: a fragment, text, a control frame.
    Other,
}

/// What to do about a received frame.
#[derive(Clone, Copy, Debug, Eq, PartialEq, Structural)]
pub enum Verdict {
    /// Hang up: the stream can no longer be trusted, or has ended.
    Abandon,
    /// Leave the link up and do nothing.
    Ignore,
    Obey(Command),
}

/// What to do about a frame of a kind and a length, of which the buffer holds
/// the first bytes.
pub open spec fn verdict(kind: Received, len: usize, buffer: Seq<u8>) -> Verdict {
    match kind {
        Received::Close => Verdict::Abandon,
        Received::Other => Verdict::Ignore,
        Received::Binary => if len > buffer.len() {
            Verdict::Abandon
        } else {
            match link::command_in(buffer.take(len as int)) {
                Some(command) => Verdict::Obey(command),
                None => Verdict::Ignore,
            }
        },
    }
}

/// Judges a received frame.
///
/// One longer than the buffer is left unread by the receive API, so it would be
/// offered again forever; hanging up is the only way out. One that does not
/// decode is dropped, and the link stays up so the stop that follows still has
/// somewhere to arrive.
pub fn judge(kind: Received, len: usize, buffer: &[u8]) -> (judged: Verdict)
    ensures
        judged == verdict(kind, len, buffer@),
{
    match kind {
        Received::Close => Verdict::Abandon,
        Received::Other => Verdict::Ignore,
        Received::Binary => {
            if len > buffer.len() {
                Verdict::Abandon
            } else {
                let frame: &[u8] = vstd::slice::slice_subrange(buffer, 0, len);
                assert(frame@ =~= buffer@.take(len as int));
                match link::decode(frame) {
                    Some(command) => Verdict::Obey(command),
                    None => Verdict::Ignore,
                }
            }
        },
    }
}

/// The planner after a command that arrived over the link.
pub open spec fn commanded(
    state: stepper::PlannerState,
    command: Command,
    now: int,
) -> stepper::PlannerState {
    match command {
        Command::Jog(rate) => state.jogged(rate as int, now, LINK_JOG_TIMEOUT_US as int),
        Command::Stop => state.stopped(now),
        Command::Release => stepper::PlannerState { holding: false, ..state.stopped(now) },
        Command::Move { steps, steps_per_s } => state.moved(steps as int, steps_per_s as int, now),
        Command::Accel(accel) => stepper::PlannerState {
            accel: stepper::held(
                accel as int,
                stepper::MIN_ACCEL_STEPS_PER_S2 as int,
                stepper::MAX_ACCEL_STEPS_PER_S2 as int,
            ),
            ..state
        },
        Command::Ping => state.kept_alive(now, LINK_JOG_TIMEOUT_US as int),
    }
}

/// Is there room on the clock for what a command sets?
pub open spec fn timely(state: stepper::PlannerState, command: Command, now: int) -> bool {
    match command {
        Command::Jog(rate) => state.can_jog(rate as int, now, LINK_JOG_TIMEOUT_US as int),
        Command::Stop | Command::Release => state.can_hold(now),
        Command::Move { steps, steps_per_s } => state.can_move(
            steps as int,
            steps_per_s as int,
            now,
        ),
        Command::Accel(_) => true,
        Command::Ping => state.can_keep_alive(now, LINK_JOG_TIMEOUT_US as int),
    }
}

/// Applies a command: the reply to send, if any.
///
/// No sequence numbers on this path. One TCP connection delivers in the order
/// it was written, so a jog cannot overtake the stop that followed it. A ping
/// is the keepalive for the jog watchdog and the client's round-trip probe, in
/// one byte each way.
pub fn obey(planner: &mut Planner, command: Command, now_us: u64) -> (reply: Option<u8>)
    requires
        old(planner)@.wf(),
        timely(old(planner)@, command, now_us as int),
    ensures
        final(planner)@ == commanded(old(planner)@, command, now_us as int),
        final(planner)@.wf(),
        reply == (if command == Command::Ping {
            Some(link::MSG_PONG)
        } else {
            None
        }),
{
    match command {
        Command::Jog(rate) => {
            planner.jog_for(rate, now_us, LINK_JOG_TIMEOUT_US);
            None
        },
        Command::Stop => {
            planner.stop(now_us);
            None
        },
        Command::Release => {
            planner.release(now_us);
            None
        },
        Command::Move { steps, steps_per_s } => {
            planner.move_by(steps, steps_per_s, now_us);
            None
        },
        Command::Accel(accel) => {
            planner.set_accel(accel);
            None
        },
        Command::Ping => {
            planner.keepalive_for(now_us, LINK_JOG_TIMEOUT_US);
            Some(link::MSG_PONG)
        },
    }
}

/// However many clients arrive, no more than [`MAX_CLIENTS`] hold the link, and
/// the one that just arrived always does.
pub proof fn law_the_link_is_never_crowded(sockets: Seq<i32>, socket: i32)
    ensures
        sockets.skip(crowded_out(sockets)).push(socket).len() <= MAX_CLIENTS,
        sockets.skip(crowded_out(sockets)).push(socket).last() == socket,
        sockets.len() < MAX_CLIENTS ==> sockets.skip(crowded_out(sockets)) == sockets,
{
    if sockets.len() < MAX_CLIENTS {
        assert(sockets.skip(0) =~= sockets);
    }
}

/// One client leaving stops the motor only if no other is left that is still
/// there.
pub proof fn law_a_remaining_client_keeps_the_motor(
    sockets: Seq<i32>,
    open: Seq<bool>,
    socket: i32,
    i: int,
)
    requires
        open.len() == sockets.len(),
        0 <= i < sockets.len(),
        open[i],
        sockets[i] != socket,
    ensures
        others(open_ones(sockets, open), socket).contains(sockets[i]),
        others(open_ones(sockets, open), socket).len() > 0,
{
    lemma_an_open_one_is_kept(sockets, open, i);
    lemma_another_is_kept(open_ones(sockets, open), socket, sockets[i]);
}

proof fn lemma_an_open_one_is_kept(sockets: Seq<i32>, open: Seq<bool>, i: int)
    requires
        0 <= i < sockets.len(),
        open[i],
    ensures
        open_ones(sockets, open).contains(sockets[i]),
    decreases sockets.len(),
{
    let head = sockets.drop_last();
    let kept = open_ones(head, open);
    if i == sockets.len() - 1 {
        assert(open_ones(sockets, open).last() == sockets[i]);
    } else {
        assert(head[i] == sockets[i]);
        lemma_an_open_one_is_kept(head, open, i);
        let j = choose|j: int| 0 <= j < kept.len() && kept[j] == sockets[i];
        assert(open_ones(sockets, open)[j] == sockets[i]);
    }
}

proof fn lemma_another_is_kept(sockets: Seq<i32>, socket: i32, other: i32)
    requires
        sockets.contains(other),
        other != socket,
    ensures
        others(sockets, socket).contains(other),
        others(sockets, socket).len() > 0,
    decreases sockets.len(),
{
    let i = choose|i: int| 0 <= i < sockets.len() && sockets[i] == other;
    let head = sockets.drop_last();
    let kept = others(head, socket);
    if i == sockets.len() - 1 {
        assert(others(sockets, socket).last() == other);
        assert(others(sockets, socket).contains(other));
    } else {
        assert(head[i] == other);
        lemma_another_is_kept(head, socket, other);
        let j = choose|j: int| 0 <= j < kept.len() && kept[j] == other;
        assert(others(sockets, socket)[j] == other);
    }
}

/// A new client takes the place of the oldest, and of no more than it must: at
/// most three hold the link, and everyone who was there either still does or is
/// hung up on.
pub proof fn law_the_oldest_makes_room(sockets: Seq<i32>, socket: i32)
    ensures
        ({
            let gone = sockets.take(crowded_out(sockets));
            let after = sockets.skip(crowded_out(sockets)).push(socket);
            &&& after.len() <= 3
            &&& gone + after == sockets.push(socket)
            &&& gone.len() > 0 ==> after.len() == 3
        }),
{
    let gone = sockets.take(crowded_out(sockets));
    let after = sockets.skip(crowded_out(sockets)).push(socket);
    assert(gone + after =~= sockets.push(socket));
}

/// A client that closed its connection is gone from the list, and so is every
/// one whose sender is closed; nobody is there who was not before.
pub proof fn law_who_left_is_gone(sockets: Seq<i32>, open: Seq<bool>, socket: i32, j: int)
    requires
        open.len() == sockets.len(),
    ensures
        !others(sockets, socket).contains(socket),
        0 <= j < open_ones(sockets, open).len() ==> exists|i: int|
            0 <= i < sockets.len() && open[i] && #[trigger] sockets[i] == open_ones(sockets, open)[j],
        open_ones(sockets, open).len() <= sockets.len(),
        (forall|i: int| 0 <= i < open.len() ==> open[i]) ==> open_ones(sockets, open) == sockets,
{
    lemma_left(sockets, socket);
    lemma_open(sockets, open, j);
}

proof fn lemma_left(sockets: Seq<i32>, socket: i32)
    ensures
        !others(sockets, socket).contains(socket),
    decreases sockets.len(),
{
    if sockets.len() > 0 {
        lemma_left(sockets.drop_last(), socket);
        let kept = others(sockets.drop_last(), socket);
        let all = others(sockets, socket);
        if all.contains(socket) {
            let i = choose|i: int| 0 <= i < all.len() && all[i] == socket;
            if i < kept.len() {
                assert(kept[i] == socket);
            }
        }
    }
}

proof fn lemma_open(sockets: Seq<i32>, open: Seq<bool>, j: int)
    requires
        open.len() >= sockets.len(),
    ensures
        0 <= j < open_ones(sockets, open).len() ==> exists|i: int|
            0 <= i < sockets.len() && open[i] && #[trigger] sockets[i] == open_ones(sockets, open)[j],
        open_ones(sockets, open).len() <= sockets.len(),
        (forall|i: int| 0 <= i < sockets.len() ==> open[i]) ==> open_ones(sockets, open) == sockets,
    decreases sockets.len(),
{
    if sockets.len() > 0 {
        let head = sockets.drop_last();
        let kept = open_ones(head, open);
        lemma_open(head, open, j);
        let last = sockets.len() - 1;
        if 0 <= j < kept.len() {
            let i = choose|i: int| 0 <= i < head.len() && open[i] && #[trigger] head[i] == kept[j];
            assert(sockets[i] == kept[j]);
        } else if 0 <= j < open_ones(sockets, open).len() {
            assert(sockets[last] == open_ones(sockets, open)[j]);
        }
        assert(head.push(sockets.last()) =~= sockets);
    }
}

/// What the page is shown is what the motor does, as far as the numbers on the
/// wire go.
pub proof fn law_the_page_is_shown_the_motor(state: stepper::PlannerState)
    ensures
        ({
            let status = shown(state);
            &&& -0x8000_0000 <= state.position <= 0x7fff_ffff ==> status.position == state.position
            &&& state.position > 0x7fff_ffff ==> status.position == 0x7fff_ffff
            &&& state.position < -0x8000_0000 ==> status.position == -0x8000_0000
            &&& -0x8000 <= state.rate <= 0x7fff ==> status.rate == state.rate
            &&& status.moving == (state.rate != 0)
            &&& status.energised == state.holding
            &&& status.remaining == state.remaining
        }),
{
}

/// Three bytes that start with 1 set the motor running; one byte stops it, lets
/// go of it or keeps it going; a frame that is too long for the buffer or ends
/// the connection is the end of it; and anything else changes nothing.
pub proof fn law_a_frame_does_what_it_says(
    state: stepper::PlannerState,
    buffer: Seq<u8>,
    len: usize,
    now: int,
)
    requires
        0 < len <= buffer.len(),
    ensures
        ({
            let judged = verdict(Received::Binary, len, buffer);
            let after = commanded(state, judged->Obey_0, now);
            let half = buffer[1] + 256 * buffer[2];
            let rate = if half < 0x8000 {
                half
            } else {
                half - 0x1_0000
            };
            &&& len == 3 && buffer[0] == 1 && rate != 0 ==> judged is Obey && after.remaining is None
                && after.expires_at == now + 1_500_000 && after.target == (if rate > 1000 {
                1000int
            } else if rate < -1000 {
                -1000int
            } else {
                rate
            })
            &&& len == 3 && buffer[0] == 1 && rate == 0 ==> judged is Obey && after
                == state.stopped(now)
            &&& len == 1 && buffer[0] == 2 ==> judged is Obey && after.rate == 0 && after.target == 0
                && after.remaining is None && after.holding == state.holding
            &&& len == 1 && buffer[0] == 3 ==> judged is Obey && after.rate == 0 && after.target == 0
                && after.remaining is None && !after.holding
            &&& len == 1 && buffer[0] == 6 ==> judged is Obey && after.rate == state.rate
                && after.target == state.target && after.remaining == state.remaining
                && after.position == state.position && (state.remaining is None && state.target
                != 0 ==> after.expires_at == now + 1_500_000)
            &&& buffer[0] == 0 || buffer[0] > 6 ==> judged is Ignore
        }),
        verdict(Received::Binary, (buffer.len() + 1) as usize, buffer) is Abandon || buffer.len()
            >= usize::MAX,
        verdict(Received::Close, len, buffer) is Abandon,
        verdict(Received::Other, len, buffer) is Ignore,
{
    let frame = buffer.take(len as int);
    link::law_a_command_is_laid_out(frame);
    assert(frame[0] == buffer[0]);
    if len == 3 {
        assert(frame[1] == buffer[1] && frame[2] == buffer[2]);
    }
}

/// A bounded move and a new acceleration over the link are those that its
/// numbers spell.
pub proof fn law_a_move_goes_as_far_as_it_says(
    state: stepper::PlannerState,
    steps: i32,
    steps_per_s: u32,
    accel: i32,
    now: int,
)
    ensures
        ({
            let after = commanded(state, Command::Move { steps, steps_per_s }, now);
            &&& steps > 0 && 0 < steps_per_s ==> after.remaining == Some(steps as u32)
                && 0 < after.target <= 1000 && (steps_per_s <= 1000 ==> after.target == steps_per_s)
            &&& steps < 0 && 0 < steps_per_s ==> after.remaining == Some((-steps) as u32) && -1000
                <= after.target < 0 && (steps_per_s <= 1000 ==> after.target == -(steps_per_s as int))
            &&& steps == 0 || steps_per_s == 0 ==> after.target == 0 && after.remaining is None
        }),
        ({
            let after = commanded(state, Command::Accel(accel), now);
            &&& 100 <= accel <= 200_000 ==> after.accel == accel
            &&& accel < 100 ==> after.accel == 100
            &&& accel > 200_000 ==> after.accel == 200_000
            &&& after == (stepper::PlannerState { accel: after.accel, ..state })
        }),
{
}

} // verus!
