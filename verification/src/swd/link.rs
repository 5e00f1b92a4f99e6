//! A link to a target: the transfers it makes, and the account of all it did.

use super::io;
use super::memory::Access;
use super::wire;
use super::io::{Framing, PadOp, SwdIo};
use super::wire::{ABORT_ALL, DP_ABORT, Error, Exchange, TRANSFER_FAULT, TRANSFER_OK, TRANSFER_WAIT};
use vstd::prelude::*;

verus! {

/// How often one transfer is put on the wire before a target that keeps
/// answering WAIT is given up.
pub const ATTEMPTS: u16 = 101;

/// One exchange, and the pad operations that it took.
pub struct Try {
    pub ops: Seq<PadOp>,
    pub exchange: Exchange,
}

/// A transfer, with every exchange that it took to settle it.
pub struct Transfer {
    pub request: u8,
    pub data: u32,
    pub tries: Seq<Try>,
    /// The word that was read or written, or why there is none.
    pub outcome: Result<u32, Error>,
}

/// One thing that a link did.
pub enum Step {
    /// Operations on the pads that are no transfer.
    Pads(Seq<PadOp>),
    /// A single exchange that nothing was to be done about.
    Once(Try),
    Transfer(Transfer),
}

impl Try {
    /// Are its operations what an exchange takes, with nothing in between?
    pub open spec fn valid(self, framing: Framing) -> bool {
        exists|ops: Seq<PadOp>|
            #[trigger] wire::exchanged(framing, ops, self.exchange) && self.ops == io::uninterrupted(
                ops,
            )
    }

    pub open spec fn asks(self, request: u8, data: u32) -> bool {
        self.exchange.request == request && self.exchange.data == data
    }
}

/// The pad operations of `tries`, in order.
pub open spec fn tries_ops(tries: Seq<Try>) -> Seq<PadOp>
    decreases tries.len(),
{
    if tries.len() == 0 {
        Seq::empty()
    } else {
        tries_ops(tries.drop_last()) + tries.last().ops
    }
}

/// Are the first `count` of `tries` ones that a target put off?
pub open spec fn put_off(tries: Seq<Try>, request: u8, data: u32, count: int) -> bool {
    forall|i: int|
        0 <= i < count ==> (#[trigger] tries[i]).asks(request, data) && tries[i].exchange.ack
            == TRANSFER_WAIT
}

impl Transfer {
    /// The outcome that its exchanges amount to. WAIT is asked again, a limited
    /// number of times; FAULT is cleared with an abort; every other
    /// acknowledgement but OK is a protocol error; and a word that is read
    /// counts only if its parity holds.
    pub open spec fn settled(self) -> bool {
        let n = self.tries.len() as int;
        let last = self.tries.last();
        match self.outcome {
            Err(Error::WaitTimeout) => {
                n == ATTEMPTS && put_off(self.tries, self.request, self.data, n)
            },
            Err(Error::Fault) => {
                &&& 2 <= n <= ATTEMPTS + 1
                &&& put_off(self.tries, self.request, self.data, n - 2)
                &&& self.tries[n - 2].asks(self.request, self.data)
                &&& self.tries[n - 2].exchange.ack == TRANSFER_FAULT
                &&& last.asks(DP_ABORT, ABORT_ALL)
            },
            _ => {
                &&& 1 <= n <= ATTEMPTS
                &&& put_off(self.tries, self.request, self.data, n - 1)
                &&& last.asks(self.request, self.data)
                &&& match self.outcome {
                    Ok(word) => last.exchange.ack == TRANSFER_OK && (if wire::is_read(self.request) {
                        last.exchange.received == Some(word)
                    } else {
                        word == self.data
                    }),
                    Err(Error::Parity) => wire::is_read(self.request) && last.exchange.ack == TRANSFER_OK
                        && last.exchange.received is None,
                    Err(Error::Protocol(ack)) => last.exchange.ack == ack && ack != TRANSFER_OK
                        && ack != TRANSFER_WAIT && ack != TRANSFER_FAULT,
                    Err(_) => false,
                }
            },
        }
    }

    pub open spec fn valid(self, framing: Framing) -> bool {
        &&& self.settled()
        &&& forall|i: int| 0 <= i < self.tries.len() ==> (#[trigger] self.tries[i]).valid(framing)
    }
}

impl Step {
    pub open spec fn ops(self) -> Seq<PadOp> {
        match self {
            Step::Pads(ops) => ops,
            Step::Once(once) => once.ops,
            Step::Transfer(transfer) => tries_ops(transfer.tries),
        }
    }

    pub open spec fn valid(self, framing: Framing) -> bool {
        match self {
            Step::Pads(_) => true,
            Step::Once(once) => once.valid(framing),
            Step::Transfer(transfer) => transfer.valid(framing),
        }
    }

    /// Is this the transfer of `data` with `request`?
    pub open spec fn moves(self, request: u8, data: u32) -> bool {
        self matches Step::Transfer(transfer) && transfer.request == request && transfer.data
            == data
    }

    /// What became of a transfer.
    pub open spec fn outcome(self) -> Result<u32, Error> {
        match self {
            Step::Transfer(transfer) => transfer.outcome,
            _ => Err(Error::Protocol(0)),
        }
    }

    /// Is this the single exchange of `data` with `request`?
    pub open spec fn tries_once(self, request: u8, data: u32) -> bool {
        self matches Step::Once(once) && once.asks(request, data)
    }

    /// The word that a single exchange got, nothing being zero.
    pub open spec fn word_got(self) -> u32 {
        match self {
            Step::Once(once) => match once.exchange.received {
                Some(word) => word,
                None => 0,
            },
            _ => 0,
        }
    }

    /// The acknowledgement of a single exchange, a word that does not hold
    /// being none.
    pub open spec fn ack_got(self) -> u8 {
        match self {
            Step::Once(once) => if wire::is_read(once.exchange.request) && once.exchange.ack
                == TRANSFER_OK && once.exchange.received is None {
                0
            } else {
                once.exchange.ack
            },
            _ => 0,
        }
    }
}

/// The pad operations of `steps`, in order.
pub open spec fn steps_ops(steps: Seq<Step>) -> Seq<PadOp>
    decreases steps.len(),
{
    if steps.len() == 0 {
        Seq::empty()
    } else {
        steps_ops(steps.drop_last()) + steps.last().ops()
    }
}

/// What a link knows and all that it did.
pub struct LinkView {
    pub steps: Seq<Step>,
    pub pads: Seq<PadOp>,
    /// The access port and bank that were last selected.
    pub selected: Option<u32>,
    /// Is the access port set up for word transfers?
    pub csw: bool,
    /// The memory accesses that were asked of it.
    pub accesses: Seq<Access>,
    /// Those of its steps that no memory access made.
    pub apart: Seq<Step>,
    /// How its pads frame a transfer.
    pub framing: Framing,
}

impl LinkView {
    /// Did it do exactly `steps` since `before`?
    pub open spec fn did(self, before: LinkView, steps: Seq<Step>) -> bool {
        &&& self.steps == before.steps + steps
        &&& self.pads == before.pads + steps_ops(steps)
        &&& self.accesses == before.accesses
        &&& self.apart == before.apart + steps
        &&& self.framing == before.framing
        &&& forall|i: int| 0 <= i < steps.len() ==> (#[trigger] steps[i]).valid(before.framing)
    }

    /// The same link, as if no memory access had made its steps since `before`.
    pub open spec fn asked(self, before: LinkView) -> LinkView {
        LinkView {
            accesses: before.accesses,
            apart: before.apart + self.since(before),
            ..self
        }
    }

    /// What it did since `before`.
    pub open spec fn since(self, before: LinkView) -> Seq<Step> {
        self.steps.skip(before.steps.len() as int)
    }

    /// How many operations on the pads none of its steps tells of.
    pub open spec fn untold(self) -> int {
        self.pads.len() - steps_ops(self.steps).len()
    }

    /// Did it only add to what it had done `before`?
    pub open spec fn went_on(self, before: LinkView) -> bool {
        self.did(before, self.since(before))
    }
}

/// What one try of a transfer comes to, on plain framing, is settled by the
/// levels that it senses.
pub proof fn law_a_plain_try_is_what_was_sensed(once: Try)
    requires
        once.valid(Framing::plain()),
    ensures
        ({
            let levels = io::sensed(once.ops);
            let granted = wire::is_read(once.exchange.request) && once.exchange.ack == TRANSFER_OK;
            &&& levels.len() == if granted {
                38int
            } else {
                5
            }
            &&& once.exchange.ack == wire::heard_ack(levels)
            &&& once.exchange.received == if granted {
                wire::heard_word(levels)
            } else {
                None
            }
        }),
{
    let ops = choose|ops: Seq<PadOp>|
        #[trigger] wire::exchanged(Framing::plain(), ops, once.exchange) && once.ops
            == io::uninterrupted(ops);
    wire::law_a_plain_transfer_is_what_was_sensed(ops, once.exchange);
    io::lemma_uninterrupted_senses(ops);
}

/// A transfer on plain framing whose first acknowledgement is sensed as OK is
/// over with that one try, and brings the word that was sensed after it.
pub proof fn law_a_granted_transfer_brings_what_was_sensed(transfer: Transfer)
    requires
        transfer.valid(Framing::plain()),
        wire::heard_ack(io::sensed(transfer.tries[0].ops)) == TRANSFER_OK,
    ensures
        transfer.tries.len() == 1,
        transfer.outcome == if !wire::is_read(transfer.request) {
            Ok(transfer.data)
        } else {
            match wire::heard_word(io::sensed(transfer.tries[0].ops)) {
                Some(word) => Ok(word),
                None => Err(Error::Parity),
            }
        },
{
    let first = transfer.tries[0];
    assert(first.valid(Framing::plain()));
    law_a_plain_try_is_what_was_sensed(first);
    assert(first.exchange.ack == TRANSFER_OK);
    if transfer.tries.len() > 1 {
        assert(transfer.tries.len() > 2 ==> put_off(
            transfer.tries,
            transfer.request,
            transfer.data,
            1,
        ));
        assert(transfer.tries[0].exchange.ack == TRANSFER_OK);
    }
}

pub(crate) proof fn lemma_steps_concat(a: Seq<Step>, b: Seq<Step>)
    ensures
        steps_ops(a + b) == steps_ops(a) + steps_ops(b),
    decreases b.len(),
{
    if b.len() == 0 {
        assert(a + b =~= a);
        assert(steps_ops(a + b) =~= steps_ops(a) + steps_ops(b));
    } else {
        lemma_steps_concat(a, b.drop_last());
        assert((a + b).drop_last() =~= a + b.drop_last());
        assert(steps_ops(a + b) =~= steps_ops(a) + steps_ops(b));
    }
}

/// What was done in two stretches was done in one.
pub(crate) proof fn lemma_did_both(
    first: LinkView,
    second: LinkView,
    third: LinkView,
    a: Seq<Step>,
    b: Seq<Step>,
)
    requires
        second.did(first, a),
        third.did(second, b),
    ensures
        third.did(first, a + b),
        third.since(first) == a + b,
{
    lemma_steps_concat(a, b);
    assert(third.steps =~= first.steps + (a + b));
    assert(third.pads =~= first.pads + steps_ops(a + b));
    assert(third.since(first) =~= a + b);
    assert(third.apart =~= first.apart + (a + b));
    assert forall|i: int| 0 <= i < (a + b).len() implies (#[trigger] (a + b)[i]).valid(
        first.framing,
    ) by {
        if i < a.len() {
            assert((a + b)[i] == a[i]);
        } else {
            assert((a + b)[i] == b[i - a.len()]);
        }
    }
}

/// Doing one step is doing a sequence of one.
pub(crate) proof fn lemma_did_one(before: LinkView, after: LinkView, step: Step)
    requires
        after.steps == before.steps.push(step),
        after.pads == before.pads + step.ops(),
        after.accesses == before.accesses,
        after.apart == before.apart.push(step),
        after.framing == before.framing,
        step.valid(before.framing),
    ensures
        after.did(before, seq![step]),
        after.since(before) == seq![step],
{
    assert(seq![step].drop_last() =~= Seq::empty());
    assert(steps_ops(Seq::empty()) =~= Seq::<PadOp>::empty());
    assert(steps_ops(seq![step]) =~= step.ops());
    assert(after.steps =~= before.steps + seq![step]);
    assert(after.apart =~= before.apart + seq![step]);
    assert(after.since(before) =~= seq![step]);
}

/// Going on leaves nothing untold.
pub(crate) proof fn lemma_all_is_told(before: LinkView, after: LinkView)
    requires
        after.asked(before).went_on(before),
    ensures
        after.untold() == before.untold(),
{
    lemma_steps_concat(before.steps, after.asked(before).since(before));
}

pub(crate) proof fn lemma_did_nothing(link: LinkView)
    ensures
        link.did(link, Seq::empty()),
        link.since(link) == Seq::<Step>::empty(),
{
    assert(link.steps =~= link.steps + Seq::empty());
    assert(steps_ops(Seq::empty()) =~= Seq::<PadOp>::empty());
    assert(link.pads =~= link.pads + Seq::empty());
    assert(link.apart =~= link.apart + Seq::empty());
    assert(link.since(link) =~= Seq::empty());
}

pub struct SwdLink<I> {
    io: I,
    selected: Option<u32>,
    csw_written: bool,
    history: Ghost<Seq<Step>>,
    accessed: Ghost<Seq<Access>>,
    apart: Ghost<Seq<Step>>,
}

impl<I: SwdIo> View for SwdLink<I> {
    type V = LinkView;

    closed spec fn view(&self) -> LinkView {
        LinkView {
            steps: self.history@,
            pads: self.io.log(),
            selected: self.selected,
            csw: self.csw_written,
            accesses: self.accessed@,
            apart: self.apart@,
            framing: I::framing(),
        }
    }
}

impl<I: SwdIo> SwdLink<I> {
    pub fn new(io: I) -> (link: SwdLink<I>)
        ensures
            link@ == (LinkView {
                steps: Seq::empty(),
                pads: io.log(),
                selected: None,
                csw: false,
                accesses: Seq::empty(),
                apart: Seq::empty(),
                framing: I::framing(),
            }),
    {
        SwdLink {
            io,
            selected: None,
            csw_written: false,
            history: Ghost(Seq::empty()),
            accessed: Ghost(Seq::empty()),
            apart: Ghost(Seq::empty()),
        }
    }

    /// Lets go of both lines, and forgets what the target was set up for.
    pub fn disconnect(&mut self)
        ensures
            final(self)@.did(old(self)@, seq![Step::Pads(seq![PadOp::Release])]),
            final(self)@.selected is None,
            !final(self)@.csw,
    {
        self.io.release();
        self.selected = None;
        self.csw_written = false;
        let ghost step = Step::Pads(seq![PadOp::Release]);
        self.history = Ghost(self.history@.push(step));
        self.apart = Ghost(self.apart@.push(step));
        proof {
            assert(self@.pads =~= old(self)@.pads + step.ops());
            lemma_did_one(old(self)@, self@, step);
        }
    }

    /// Waits.
    pub(crate) fn pause(&mut self, milliseconds: u16)
        ensures
            final(self)@.did(old(self)@, seq![Step::Pads(seq![PadOp::DelayMs(milliseconds)])]),
            final(self)@.selected == old(self)@.selected,
            final(self)@.csw == old(self)@.csw,
    {
        self.io.delay_ms(milliseconds);
        let ghost step = Step::Pads(seq![PadOp::DelayMs(milliseconds)]);
        self.history = Ghost(self.history@.push(step));
        self.apart = Ghost(self.apart@.push(step));
        proof {
            assert(self@.pads =~= old(self)@.pads + step.ops());
            lemma_did_one(old(self)@, self@, step);
        }
    }

    pub(crate) fn sequence(&mut self, count: usize, bytes: &[u8])
        requires
            count <= 8 * bytes@.len(),
        ensures
            final(self)@.did(old(self)@, seq![clocked_out(io::byte_bits(bytes@, count as nat))]),
            final(self)@.selected == old(self)@.selected,
            final(self)@.csw == old(self)@.csw,
    {
        self.io.begin_transaction();
        self.io.set_swdio_output();
        self.io.write_sequence(bytes, count);
        self.io.end_transaction();
        let ghost step = clocked_out(io::byte_bits(bytes@, count as nat));
        self.history = Ghost(self.history@.push(step));
        self.apart = Ghost(self.apart@.push(step));
        proof {
            assert(self@.pads =~= old(self)@.pads + step.ops());
            lemma_did_one(old(self)@, self@, step);
        }
    }

    /// Makes one exchange, and leaves what came of it to the caller.
    pub(crate) fn once(&mut self, request: u8, data: u32) -> (got: (u8, u32))
        ensures
            ({
                let steps = final(self)@.since(old(self)@);
                &&& final(self)@.did(old(self)@, steps)
                &&& steps.len() == 1
                &&& steps[0].tries_once(request, data)
                &&& got.0 == steps[0].ack_got()
                &&& wire::is_read(request) && data == 0 ==> got.1 == steps[0].word_got()
            }),
            final(self)@.selected == old(self)@.selected,
            final(self)@.csw == old(self)@.csw,
    {
        let ghost before = self.io.log();
        let mut word: u32 = data;
        self.io.begin_transaction();
        let ghost begun = self.io.log();
        let result: Result<u8, Error> = wire::wire_transfer(&mut self.io, request, &mut word);
        let ghost inner = self.io.log().skip(begun.len() as int);
        self.io.end_transaction();
        assert(self.io.log() =~= before + io::uninterrupted(inner));
        let ghost exchange = wire::told_by(request, data, result, word);
        let ghost step = Step::Once(Try { ops: io::uninterrupted(inner), exchange });
        self.history = Ghost(self.history@.push(step));
        self.apart = Ghost(self.apart@.push(step));
        proof {
            lemma_did_one(old(self)@, self@, step);
        }
        match result {
            Ok(ack) => (ack, word),
            Err(_) => (0, word),
        }
    }

    /// Makes one transfer, asking again for as long as the target says to.
    pub(crate) fn transfer(&mut self, request: u8, data: u32) -> (result: Result<u32, Error>)
        ensures
            ({
                let steps = final(self)@.since(old(self)@);
                &&& final(self)@.did(old(self)@, steps)
                &&& steps.len() == 1
                &&& steps[0].moves(request, data)
                &&& steps[0].outcome() == result
            }),
            final(self)@.selected == old(self)@.selected,
            final(self)@.csw == old(self)@.csw,
    {
        let ghost mut tries: Seq<Try> = Seq::empty();
        let mut attempt: u16 = 0;
        assert(self.io.log() =~= old(self).io.log() + tries_ops(tries));
        while attempt < ATTEMPTS
            invariant
                attempt <= ATTEMPTS,
                tries.len() == attempt,
                put_off(tries, request, data, attempt as int),
                forall|i: int| 0 <= i < tries.len() ==> (#[trigger] tries[i]).valid(I::framing()),
                self.io.log() == old(self).io.log() + tries_ops(tries),
                self.history == old(self).history,
                self.accessed == old(self).accessed,
                self.apart == old(self).apart,
                self.selected == old(self).selected,
                self.csw_written == old(self).csw_written,
            decreases ATTEMPTS - attempt,
        {
            let ghost before = self.io.log();
            let ghost earlier = tries;
            let mut word: u32 = data;
            self.io.begin_transaction();
            let ghost begun = self.io.log();
            let result: Result<u8, Error> = wire::wire_transfer(&mut self.io, request, &mut word);
            let ghost inner = self.io.log().skip(begun.len() as int);
            self.io.end_transaction();
            proof {
                let ops = io::uninterrupted(inner);
                assert(self.io.log() =~= before + ops);
                tries = tries.push(Try { ops, exchange: wire::told_by(request, data, result, word) });
                assert(tries.drop_last() =~= earlier);
                assert(self.io.log() =~= old(self).io.log() + tries_ops(tries));
            }
            let outcome: Result<u32, Error> = match result {
                Err(error) => Err(error),
                Ok(ack) => {
                    if ack == TRANSFER_WAIT {
                        attempt += 1;
                        continue;
                    }
                    if ack == TRANSFER_OK {
                        Ok(word)
                    } else if ack == TRANSFER_FAULT {
                        let ghost before = self.io.log();
                        let ghost earlier = tries;
                        let mut abort: u32 = ABORT_ALL;
                        self.io.begin_transaction();
                        let ghost begun = self.io.log();
                        let aborted: Result<u8, Error> = wire::wire_transfer(
                            &mut self.io,
                            DP_ABORT,
                            &mut abort,
                        );
                        let ghost inner = self.io.log().skip(begun.len() as int);
                        self.io.end_transaction();
                        proof {
                            let ops = io::uninterrupted(inner);
                            assert(self.io.log() =~= before + ops);
                            tries = tries.push(
                                Try {
                                    ops,
                                    exchange: wire::told_by(DP_ABORT, ABORT_ALL, aborted, abort),
                                },
                            );
                            assert(tries.drop_last() =~= earlier);
                            assert(self.io.log() =~= old(self).io.log() + tries_ops(tries));
                        }
                        Err(Error::Fault)
                    } else {
                        Err(Error::Protocol(ack))
                    }
                },
            };
            let ghost step = Step::Transfer(Transfer { request, data, tries, outcome });
            self.history = Ghost(self.history@.push(step));
            self.apart = Ghost(self.apart@.push(step));
            proof {
                lemma_did_one(old(self)@, self@, step);
            }
            return outcome;
        }
        let ghost step = Step::Transfer(
            Transfer { request, data, tries, outcome: Err(Error::WaitTimeout) },
        );
        self.history = Ghost(self.history@.push(step));
        self.apart = Ghost(self.apart@.push(step));
        proof {
            lemma_did_one(old(self)@, self@, step);
        }
        Err(Error::WaitTimeout)
    }

    /// The levels of both lines, with SWDIO's first.
    pub(crate) fn look(&mut self) -> (levels: (bool, bool))
        ensures
            final(self)@.did(
                old(self)@,
                seq![Step::Pads(seq![PadOp::Lines(levels.0, levels.1)])],
            ),
            final(self)@.selected == old(self)@.selected,
            final(self)@.csw == old(self)@.csw,
    {
        let levels: (bool, bool) = self.io.sample_lines();
        let ghost step = Step::Pads(seq![PadOp::Lines(levels.0, levels.1)]);
        self.history = Ghost(self.history@.push(step));
        self.apart = Ghost(self.apart@.push(step));
        proof {
            assert(self@.pads =~= old(self)@.pads + step.ops());
            lemma_did_one(old(self)@, self@, step);
        }
        levels
    }

    /// Takes down what was done to the pads since the last step.
    pub(crate) fn note(&mut self, Ghost(step): Ghost<Step>)
        ensures
            final(self)@ == (LinkView {
                steps: old(self)@.steps.push(step),
                apart: old(self)@.apart.push(step),
                ..old(self)@
            }),
    {
        self.history = Ghost(self.history@.push(step));
        self.apart = Ghost(self.apart@.push(step));
    }

    /// Takes down a memory access, to which the steps since `apart` belong.
    pub(super) fn note_access(
        &mut self,
        Ghost(access): Ghost<Access>,
        Ghost(apart): Ghost<Seq<Step>>,
    )
        ensures
            final(self)@ == (LinkView {
                accesses: old(self)@.accesses.push(access),
                apart,
                ..old(self)@
            }),
    {
        self.accessed = Ghost(self.accessed@.push(access));
        self.apart = Ghost(apart);
    }

    /// Remembers what the target is set up for.
    pub(crate) fn set_up(&mut self, selected: Option<u32>, csw: bool)
        ensures
            final(self)@ == (LinkView { selected, csw, ..old(self)@ }),
    {
        self.selected = selected;
        self.csw_written = csw;
    }

    /// How a link's pads frame a transfer does not change.
    pub(crate) proof fn lemma_framing(&self)
        ensures
            self@.framing == I::framing(),
    {
    }

    /// The access port and bank that were last selected, and whether it is set
    /// up for word transfers.
    pub(crate) fn setup(&self) -> (setup: (Option<u32>, bool))
        ensures
            setup == (self@.selected, self@.csw),
    {
        (self.selected, self.csw_written)
    }

    /// Borrows the electrical backend for pad-level configuration such as wire
    /// speed or pin mapping.
    pub fn io_mut(&mut self) -> (io: &mut I)
        ensures
            io.log() == old(self)@.pads,
            old(self)@.framing == I::framing(),
            final(self)@ == (LinkView { pads: final(io).log(), ..old(self)@ }),
    {
        &mut self.io
    }

    /// Gives the backend back, with both lines let go of.
    pub fn into_io(self) -> (io: I)
        ensures
            io.log() == self@.pads.push(PadOp::Release),
    {
        let mut link: SwdLink<I> = self;
        link.io.release();
        link.io
    }
}

/// `bits` clocked out with SWDIO driven, with nothing in between.
pub open spec fn clocked_out(bits: Seq<bool>) -> Step {
    Step::Pads(io::uninterrupted(seq![PadOp::Output] + io::drive_bits(bits)))
}

} // verus!
