//! Word access to a target's memory through its MEM-AP.

use super::io::SwdIo;
use super::link;
use super::link::{LinkView, Step, SwdLink};
use super::registers;
use super::registers::Program;
use super::wire::{Error, AP_CSW, AP_DRW_WRITE, AP_TAR, CORTEX_M_WORD_CSW, DP_RDBUFF, DP_SELECT};
use vstd::prelude::*;

verus! {

/// One access to a memory, and what came of it.
pub enum Access {
    Read(u32, Result<u32, Error>),
    Write(u32, u32, Result<(), Error>),
    /// The words are those that the buffer held afterwards.
    ReadBlock(u32, Seq<u32>, Result<(), Error>),
    WriteBlock(u32, Seq<u32>, Result<(), Error>),
    Delay(u16),
}

/// Do `count` words from `address` lie in the 32-bit address space?
pub open spec fn addressable(address: u32, count: nat) -> bool {
    address % 4 == 0 ==> address + 4 * count <= 0x1_0000_0000
}

/// A memory of 32-bit words. It keeps an account of all that was asked of it.
pub trait WordMemory: Sized {
    /// The account. It exists in proofs only: one that nothing is proved of
    /// need not say what it is.
    closed spec fn accesses(&self) -> Seq<Access> {
        Seq::empty()
    }

    /// What was done on the way to the memory by none of its accesses: steps,
    /// and how many operations no step tells of. An access adds nothing to it.
    closed spec fn apart(&self) -> (Seq<Step>, int) {
        (Seq::empty(), 0)
    }

    fn read_word(&mut self, address: u32) -> (result: Result<u32, Error>)
        ensures
            final(self).accesses() == old(self).accesses().push(Access::Read(address, result)),
            final(self).apart() == old(self).apart(),
    ;

    fn write_word(&mut self, address: u32, value: u32) -> (result: Result<(), Error>)
        ensures
            final(self).accesses() == old(self).accesses().push(
                Access::Write(address, value, result),
            ),
            final(self).apart() == old(self).apart(),
    ;

    fn read_words(&mut self, address: u32, values: &mut [u32]) -> (result: Result<(), Error>)
        requires
            addressable(address, old(values)@.len()),
        ensures
            final(self).accesses() == old(self).accesses().push(
                Access::ReadBlock(address, final(values)@, result),
            ),
            final(values)@.len() == old(values)@.len(),
            final(self).apart() == old(self).apart(),
    ;

    fn write_words(&mut self, address: u32, values: &[u32]) -> (result: Result<(), Error>)
        requires
            addressable(address, values@.len()),
        ensures
            final(self).accesses() == old(self).accesses().push(
                Access::WriteBlock(address, values@, result),
            ),
            final(self).apart() == old(self).apart(),
    ;

    fn delay_ms(&mut self, milliseconds: u16)
        ensures
            final(self).accesses() == old(self).accesses().push(Access::Delay(milliseconds)),
            final(self).apart() == old(self).apart(),
    ;
}

/// Words from `address` to the end of its auto-increment region.
pub open spec fn region_words(address: int) -> int {
    (1024 - address % 1024) / 4
}

/// Words addressable from `address` before the MEM-AP auto-increment wraps.
///
/// ADIv5 only guarantees auto-increment within a 1 KiB region, so every block
/// access has to re-write TAR at each boundary.
pub fn auto_increment_words(address: u32) -> (words: usize)
    ensures
        words == region_words(address as int),
        address % 4 == 0 ==> 1 <= words <= 256,
{
    let into: u32 = address % 1024;
    assert(address as int == 1024 * (address as int / 1024) + into);
    assert(address % 4 == into % 4);
    ((1024 - into) / 4) as usize
}

/// Words of a block at `address` that are moved before TAR is written again.
pub open spec fn span_words(address: int, count: int) -> int {
    if region_words(address) < count {
        region_words(address)
    } else {
        count
    }
}

/// The transfers that set the access port up, where it is not.
pub open spec fn select_program(selected: Option<u32>, csw: bool) -> Program {
    let word_access = (AP_CSW, CORTEX_M_WORD_CSW);
    if selected != Some(0u32) {
        seq![(DP_SELECT, 0u32), word_access]
    } else if !csw {
        seq![word_access]
    } else {
        Seq::empty()
    }
}

/// What a link has selected once `steps` of its set-up are done.
pub open spec fn selected_after(selected: Option<u32>, steps: Seq<Step>) -> Option<u32> {
    if selected != Some(0u32) && registers::done(steps, 0) {
        Some(0u32)
    } else {
        selected
    }
}

/// Whether its word access is set up then.
pub open spec fn csw_after(selected: Option<u32>, csw: bool, steps: Seq<Step>) -> bool {
    if selected != Some(0u32) {
        if registers::done(steps, 0) {
            registers::done(steps, 1)
        } else {
            csw
        }
    } else {
        csw || registers::done(steps, 0)
    }
}

/// The transfers that read a block: TAR is written at its start and at every
/// region boundary, and each stretch between is a posted block read of DRW.
pub open spec fn fetch_program(address: int, count: int) -> Program
    decreases count,
{
    let n = span_words(address, count);
    if count <= 0 || n <= 0 {
        Seq::empty()
    } else {
        seq![(AP_TAR, address as u32)] + registers::block_read_program(true, 0x0c, n as nat)
            + fetch_program(address + 4 * n, count - n)
    }
}

/// Which of those transfers brings the word numbered `i`.
pub open spec fn fetch_place(address: int, i: int) -> int
    decreases i,
{
    let n = region_words(address);
    if i < n || n <= 0 {
        i + 2
    } else {
        n + 2 + fetch_place(address + 4 * n, i - n)
    }
}

/// The transfers that write a block, without the read of RDBUFF that ends it.
pub open spec fn store_program(address: int, values: Seq<u32>) -> Program
    decreases values.len(),
{
    let n = span_words(address, values.len() as int);
    if values.len() == 0 || n <= 0 {
        Seq::empty()
    } else {
        seq![(AP_TAR, address as u32)] + Seq::new(n as nat, |i: int| (AP_DRW_WRITE, values[i]))
            + store_program(address + 4 * n, values.skip(n))
    }
}

/// What a block read leaves in a buffer: each word that arrived, and the rest
/// as it was.
pub open spec fn fetched(
    steps: Seq<Step>,
    address: int,
    before: Seq<u32>,
    after: Seq<u32>,
) -> bool {
    &&& after.len() == before.len()
    &&& forall|i: int|
        0 <= i < after.len() ==> #[trigger] after[i] == (if registers::done(
            steps,
            fetch_place(address, i),
        ) {
            registers::word_at(steps, fetch_place(address, i))
        } else {
            before[i]
        })
}

/// What came of a run of transfers.
pub open spec fn finished(steps: Seq<Step>) -> Result<(), Error> {
    match registers::failure(steps) {
        Some(error) => Err(error),
        None => Ok(()),
    }
}

/// `steps` from the one numbered `from`, none if there are not so many.
pub open spec fn steps_from(steps: Seq<Step>, from: nat) -> Seq<Step> {
    if from <= steps.len() {
        steps.skip(from as int)
    } else {
        Seq::empty()
    }
}

impl<I: SwdIo> SwdLink<I> {
    /// Sets the access port up for word access, where it is not.
    pub(crate) fn select_bank_zero(&mut self) -> (result: Result<(), Error>)
        ensures
            final(self)@.went_on(old(self)@),
            ({
                let steps = final(self)@.since(old(self)@);
                &&& registers::ran(steps, select_program(old(self)@.selected, old(self)@.csw))
                &&& result == finished(steps)
                &&& final(self)@.selected == selected_after(old(self)@.selected, steps)
                &&& final(self)@.csw == csw_after(old(self)@.selected, old(self)@.csw, steps)
            }),
    {
        let ghost start = self@;
        let (selected, csw) = self.setup();
        let ghost w = seq![(AP_CSW, CORTEX_M_WORD_CSW)];
        let fresh: bool = match selected {
            Some(bank) => bank != 0,
            None => true,
        };
        proof {
            link::lemma_did_nothing(self@);
        }
        let ghost mut a: Seq<Step> = Seq::empty();
        let ghost mut p: Program = Seq::empty();
        if fresh {
            let result: Result<(), Error> = self.dp_write(DP_SELECT, 0);
            proof {
                a = self@.since(start);
                p = seq![(DP_SELECT, 0u32)];
                assert(a =~= seq![a[0]]);
                registers::lemma_ran_one(a[0], DP_SELECT, 0);
                assert(p + w =~= select_program(selected, csw));
            }
            if let Err(error) = result {
                proof {
                    registers::lemma_ran_short(a, p, w);
                }
                return Err(error);
            }
            self.set_up(Some(0), false);
        }
        let (_, ready) = self.setup();
        if ready {
            return Ok(());
        }
        let ghost middle = self@;
        let result: Result<(), Error> = self.dp_write(AP_CSW, CORTEX_M_WORD_CSW);
        let ghost b = self@.since(middle);
        proof {
            assert(b =~= seq![b[0]]);
            registers::lemma_ran_one(b[0], AP_CSW, CORTEX_M_WORD_CSW);
            assert(middle.did(start, a));
            link::lemma_did_both(start, middle, self@, a, b);
            if fresh {
                registers::lemma_ran_on(a, p, b, w);
                assert((a + b)[0] == a[0] && (a + b)[1] == b[0]);
            } else {
                assert(a + b =~= b);
                assert(select_program(selected, csw) =~= w);
            }
        }
        if let Err(error) = result {
            return Err(error);
        }
        let ghost written = self@;
        self.set_up(Some(0), true);
        proof {
            assert(self@.did(start, a + b));
            assert(self@.since(start) =~= a + b);
        }
        Ok(())
    }
}

/// A word past the first stretch comes with the transfers of the rest.
proof fn lemma_place_after_span(address: int, count: int, n: int, j: int)
    requires
        0 < n,
        n == span_words(address, count),
        0 <= j,
        n + j < count,
    ensures
        fetch_place(address, n + j) == n + 2 + fetch_place(address + 4 * n, j),
{
}

/// The transfers that read a stretch within one region.
pub open spec fn span_program(address: u32, n: nat) -> Program {
    seq![(AP_TAR, address)] + registers::block_read_program(true, 0x0c, n)
}

/// The stretch `after[from..][..n]` holds each word that arrived, and all else
/// is as it was.
pub open spec fn span_fetched(
    steps: Seq<Step>,
    before: Seq<u32>,
    after: Seq<u32>,
    from: int,
    n: int,
) -> bool {
    &&& after.len() == before.len()
    &&& forall|i: int|
        0 <= i < after.len() ==> #[trigger] after[i] == (if from <= i < from + n && registers::done(
            steps,
            i - from + 2,
        ) {
            registers::word_at(steps, i - from + 2)
        } else {
            before[i]
        })
}

/// A stretch that failed is a block that failed there.
proof fn lemma_fetch_stopped(
    steps: Seq<Step>,
    address: int,
    before: Seq<u32>,
    after: Seq<u32>,
    from: int,
    n: int,
)
    requires
        0 <= from <= before.len(),
        0 < n,
        n == span_words(address, before.len() - from),
        steps.len() <= n + 2,
        span_fetched(steps, before, after, from, n),
    ensures
        fetched(steps, address, before.skip(from), after.skip(from)),
        after.take(from) == before.take(from),
{
    let count = before.len() - from;
    let (b, a) = (before.skip(from), after.skip(from));
    assert forall|i: int| 0 <= i < a.len() implies #[trigger] a[i] == (if registers::done(
        steps,
        fetch_place(address, i),
    ) {
        registers::word_at(steps, fetch_place(address, i))
    } else {
        b[i]
    }) by {
        assert(a[i] == after[from + i]);
        if i >= n {
            lemma_place_after_span(address, count, n, i - n);
            lemma_place_bound(address + 4 * n, i - n);
        }
    }
    assert(after.take(from) =~= before.take(from));
}

/// A stretch and the block after it are one block.
proof fn lemma_fetch_on(
    first: Seq<Step>,
    rest: Seq<Step>,
    address: int,
    before: Seq<u32>,
    middle: Seq<u32>,
    after: Seq<u32>,
    from: int,
    n: int,
)
    requires
        0 <= from,
        0 < n < before.len() - from,
        n == span_words(address, before.len() - from),
        first.len() == n + 2,
        span_fetched(first, before, middle, from, n),
        after.len() == middle.len(),
        after.take(from + n) == middle.take(from + n),
        fetched(rest, address + 4 * n, middle.skip(from + n), after.skip(from + n)),
    ensures
        fetched(first + rest, address, before.skip(from), after.skip(from)),
        after.take(from) == before.take(from),
{
    let count = before.len() - from;
    let all = first + rest;
    let (b, a) = (before.skip(from), after.skip(from));
    assert forall|i: int| 0 <= i < a.len() implies #[trigger] a[i] == (if registers::done(
        all,
        fetch_place(address, i),
    ) {
        registers::word_at(all, fetch_place(address, i))
    } else {
        b[i]
    }) by {
        assert(a[i] == after[from + i]);
        if i < n {
            let k = from + i;
            assert(after.take(from + n)[k] == after[k] && middle.take(from + n)[k] == middle[k]);
            assert(all[i + 2] == first[i + 2]);
        } else {
            let j = i - n;
            lemma_place_after_span(address, count, n, j);
            lemma_place_bound(address + 4 * n, j);
            let k = fetch_place(address + 4 * n, j);
            assert(after.skip(from + n)[j] == after[from + i]);
            assert(middle.skip(from + n)[j] == middle[from + i]);
            assert(middle[from + i] == before[from + i]);
            if k < rest.len() {
                assert(all[n + 2 + k] == rest[k]);
            }
        }
    }
    assert forall|i: int| 0 <= i < from implies after[i] == before[i] by {
        assert(after.take(from + n)[i] == after[i] && middle.take(from + n)[i] == middle[i]);
    }
    assert(after.take(from) =~= before.take(from));
}

impl<I: SwdIo> SwdLink<I> {
    /// Reads a stretch within one region.
    fn fetch_span(&mut self, address: u32, values: &mut [u32], from: usize, span: usize) -> (result:
        Result<(), Error>)
        requires
            0 < span,
            from + span <= old(values)@.len(),
        ensures
            final(self)@.went_on(old(self)@),
            final(self)@.selected == old(self)@.selected,
            final(self)@.csw == old(self)@.csw,
            ({
                let steps = final(self)@.since(old(self)@);
                &&& registers::ran(steps, span_program(address, span as nat))
                &&& result == finished(steps)
                &&& span_fetched(
                    steps,
                    old(values)@,
                    final(values)@,
                    from as int,
                    span as int,
                )
            }),
    {
        let ghost start = self@;
        let ghost before = values@;
        let ghost p = seq![(AP_TAR, address)];
        let ghost q = registers::block_read_program(true, 0x0c, span as nat);
        let pointed: Result<(), Error> = self.dp_write(AP_TAR, address);
        let ghost one = self@;
        let ghost a = self@.since(start);
        proof {
            assert(a =~= seq![a[0]]);
            registers::lemma_ran_one(a[0], AP_TAR, address);
        }
        if let Err(error) = pointed {
            proof {
                registers::lemma_ran_short(a, p, q);
            }
            return Err(error);
        }
        let moved: Result<(), Error> = self.read_block(true, 0x0c, values, from, span);
        proof {
            let b = self@.since(one);
            registers::lemma_ran_on(a, p, b, q);
            link::lemma_did_both(start, one, self@, a, b);
            let all = a + b;
            assert forall|i: int| 0 <= i < values@.len() implies #[trigger] values@[i] == (
            if from <= i < from + span && registers::done(all, i - from + 2) {
                registers::word_at(all, i - from + 2)
            } else {
                before[i]
            }) by {
                if from <= i < from + span {
                    let part = values@.subrange(from as int, from + span);
                    assert(part[i - from] == values@[i]);
                    assert(before.subrange(from as int, from + span)[i - from] == before[i]);
                    if i - from + 1 < b.len() {
                        assert(all[i - from + 2] == b[i - from + 1]);
                    }
                }
            }
        }
        moved
    }

    /// Reads a block into `values[from..]` with the access port set up.
    fn fetch_selected(&mut self, address: u32, values: &mut [u32], from: usize) -> (result: Result<
        (),
        Error,
    >)
        requires
            from <= old(values)@.len(),
            address % 4 == 0,
            address + 4 * (old(values)@.len() - from) <= 0x1_0000_0000,
        ensures
            final(self)@.went_on(old(self)@),
            final(self)@.selected == old(self)@.selected,
            final(self)@.csw == old(self)@.csw,
            ({
                let steps = final(self)@.since(old(self)@);
                let count = old(values)@.len() - from;
                &&& registers::ran(steps, fetch_program(address as int, count))
                &&& result == finished(steps)
                &&& final(values)@.len() == old(values)@.len()
                &&& final(values)@.take(from as int) == old(values)@.take(from as int)
                &&& fetched(
                    steps,
                    address as int,
                    old(values)@.skip(from as int),
                    final(values)@.skip(from as int),
                )
            }),
        decreases old(values)@.len() - from,
    {
        let ghost start = self@;
        let ghost before = values@;
        let len: usize = values.len();
        let count: usize = len - from;
        if count == 0 {
            proof {
                link::lemma_did_nothing(self@);
            }
            return Ok(());
        }
        let region: usize = auto_increment_words(address);
        let span: usize = if region < count { region } else { count };
        let ghost p = span_program(address, span as nat);
        let ghost q = fetch_program(address + 4 * span, count - span);
        assert(fetch_program(address as int, count as int) =~= p + q);
        let moved: Result<(), Error> = self.fetch_span(address, values, from, span);
        let ghost one = self@;
        let ghost a = self@.since(start);
        let ghost middle = values@;
        if moved.is_err() || span == count {
            proof {
                lemma_fetch_stopped(a, address as int, before, middle, from as int, span as int);
                if span == count {
                    assert(q =~= Seq::empty());
                    assert(p + q =~= p);
                } else {
                    registers::lemma_ran_short(a, p, q);
                }
            }
            return moved;
        }
        let rest: Result<(), Error> = self.fetch_selected(
            address + 4 * span as u32,
            values,
            from + span,
        );
        proof {
            let b = self@.since(one);
            registers::lemma_ran_on(a, p, b, q);
            link::lemma_did_both(start, one, self@, a, b);
            lemma_fetch_on(
                a,
                b,
                address as int,
                before,
                middle,
                values@,
                from as int,
                span as int,
            );
        }
        rest
    }
}

/// The first word of a block comes third, at the earliest.
proof fn lemma_place_bound(address: int, i: int)
    requires
        0 <= i,
    ensures
        fetch_place(address, i) >= 2,
    decreases i,
{
    let n = region_words(address);
    if !(i < n || n <= 0) {
        lemma_place_bound(address + 4 * n, i - n);
    }
}

/// The program of a whole block read on a link.
pub open spec fn read_words_program(link: LinkView, address: u32, count: nat) -> Program {
    select_program(link.selected, link.csw) + fetch_program(address as int, count as int)
}

/// Did a link read a block into a buffer: every word that arrived in its place,
/// and the rest of the buffer as it was?
pub open spec fn block_read(
    before: LinkView,
    after: LinkView,
    address: u32,
    old_values: Seq<u32>,
    values: Seq<u32>,
    result: Result<(), Error>,
) -> bool {
    let steps = after.asked(before).since(before);
    let setup = select_program(before.selected, before.csw).len();
    &&& after.asked(before).went_on(before)
    &&& if address % 4 != 0 {
        &&& after.selected == before.selected
        &&& after.csw == before.csw
        &&& steps.len() == 0
        &&& result == Err::<(), Error>(Error::Unaligned)
        &&& values == old_values
    } else {
        &&& after.selected == selected_after(before.selected, steps)
        &&& after.csw == csw_after(before.selected, before.csw, steps)
        &&& registers::ran(steps, read_words_program(before, address, old_values.len()))
        &&& result == finished(steps)
        &&& fetched(steps_from(steps, setup), address as int, old_values, values)
    }
}

/// The program of a whole block write on a link. The read of RDBUFF at its end
/// waits for the last write to be through.
pub open spec fn write_words_program(link: LinkView, address: u32, values: Seq<u32>) -> Program {
    select_program(link.selected, link.csw) + store_program(address as int, values).push(
        (DP_RDBUFF, 0u32),
    )
}

impl<I: SwdIo> SwdLink<I> {
    fn fetch(&mut self, address: u32, values: &mut [u32]) -> (result: Result<(), Error>)
        requires
            addressable(address, old(values)@.len()),
        ensures
            final(self)@.went_on(old(self)@),
            final(values)@.len() == old(values)@.len(),
            ({
                let steps = final(self)@.since(old(self)@);
                let setup = select_program(old(self)@.selected, old(self)@.csw).len();
                if address % 4 != 0 {
                    &&& steps.len() == 0
                    &&& result == Err::<(), Error>(Error::Unaligned)
                    &&& final(values)@ == old(values)@
                    &&& final(self)@.selected == old(self)@.selected
                    &&& final(self)@.csw == old(self)@.csw
                } else {
                    &&& registers::ran(
                        steps,
                        read_words_program(old(self)@, address, old(values)@.len()),
                    )
                    &&& result == finished(steps)
                    &&& fetched(
                        steps_from(steps, setup),
                        address as int,
                        old(values)@,
                        final(values)@,
                    )
                    &&& final(self)@.selected == selected_after(old(self)@.selected, steps)
                    &&& final(self)@.csw == csw_after(old(self)@.selected, old(self)@.csw, steps)
                }
            }),
    {
        let ghost start = self@;
        if address % 4 != 0 {
            proof {
                link::lemma_did_nothing(self@);
            }
            return Err(Error::Unaligned);
        }
        let ghost p = select_program(start.selected, start.csw);
        let ghost q = fetch_program(address as int, values@.len() as int);
        let ready: Result<(), Error> = self.select_bank_zero();
        let ghost one = self@;
        let ghost a = self@.since(start);
        if let Err(error) = ready {
            proof {
                registers::lemma_ran_short(a, p, q);
                assert(steps_from(a, p.len()) =~= Seq::empty());
            }
            return Err(error);
        }
        let result: Result<(), Error> = self.fetch_selected(address, values, 0);
        proof {
            let b = self@.since(one);
            registers::lemma_ran_on(a, p, b, q);
            link::lemma_did_both(start, one, self@, a, b);
            assert(steps_from(a + b, p.len()) =~= b);
            assert((a + b).take(a.len() as int) =~= a);
            assert(old(values)@.skip(0) =~= old(values)@);
            assert(values@.skip(0) =~= values@);
            lemma_setup_settled(start.selected, start.csw, a, a + b);
        }
        result
    }

    /// Writes a block from `values[from..]` with the access port set up.
    fn store_selected(&mut self, address: u32, values: &[u32], from: usize) -> (result: Result<
        (),
        Error,
    >)
        requires
            from <= values@.len(),
            address % 4 == 0,
            address + 4 * (values@.len() - from) <= 0x1_0000_0000,
        ensures
            final(self)@.went_on(old(self)@),
            final(self)@.selected == old(self)@.selected,
            final(self)@.csw == old(self)@.csw,
            ({
                let steps = final(self)@.since(old(self)@);
                &&& registers::ran(
                    steps,
                    store_program(address as int, values@.skip(from as int)),
                )
                &&& result == finished(steps)
            }),
        decreases values@.len() - from,
    {
        let ghost start = self@;
        let len: usize = values.len();
        let count: usize = len - from;
        if count == 0 {
            proof {
                link::lemma_did_nothing(self@);
            }
            return Ok(());
        }
        let region: usize = auto_increment_words(address);
        let span: usize = if region < count { region } else { count };
        let ghost block = values@.skip(from as int);
        let ghost p = seq![(AP_TAR, address)];
        let ghost q = Seq::new(span as nat, |i: int| (AP_DRW_WRITE, values@[from + i]));
        let ghost r = store_program(address + 4 * span, block.skip(span as int));
        proof {
            assert(q =~= Seq::new(span as nat, |i: int| (AP_DRW_WRITE, block[i])));
            assert(store_program(address as int, block) =~= p + q + r);
            assert(p + (q + r) =~= p + q + r);
            assert(block.skip(span as int) =~= values@.skip(from + span));
        }
        let pointed: Result<(), Error> = self.dp_write(AP_TAR, address);
        let ghost one = self@;
        let ghost a = self@.since(start);
        proof {
            assert(a =~= seq![a[0]]);
            registers::lemma_ran_one(a[0], AP_TAR, address);
        }
        if let Err(error) = pointed {
            proof {
                registers::lemma_ran_short(a, p, q + r);
            }
            return Err(error);
        }
        let moved: Result<(), Error> = self.write_block(AP_DRW_WRITE, values, from, span);
        let ghost two = self@;
        let ghost b = self@.since(one);
        proof {
            registers::lemma_ran_on(a, p, b, q);
            link::lemma_did_both(start, one, two, a, b);
        }
        if let Err(error) = moved {
            proof {
                registers::lemma_ran_short(a + b, p + q, r);
            }
            return Err(error);
        }
        if span == count {
            proof {
                assert(r =~= Seq::empty());
                assert(p + q + r =~= p + q);
            }
            return Ok(());
        }
        let rest: Result<(), Error> = self.store_selected(
            address + 4 * span as u32,
            values,
            from + span,
        );
        proof {
            let c = self@.since(two);
            registers::lemma_ran_on(a + b, p + q, c, r);
            link::lemma_did_both(start, two, self@, a + b, c);
        }
        rest
    }

    fn store(&mut self, address: u32, values: &[u32]) -> (result: Result<(), Error>)
        requires
            addressable(address, values@.len()),
        ensures
            final(self)@.went_on(old(self)@),
            ({
                let steps = final(self)@.since(old(self)@);
                if address % 4 != 0 {
                    &&& steps.len() == 0
                    &&& result == Err::<(), Error>(Error::Unaligned)
                    &&& final(self)@.selected == old(self)@.selected
                    &&& final(self)@.csw == old(self)@.csw
                } else {
                    &&& registers::ran(steps, write_words_program(old(self)@, address, values@))
                    &&& result == finished(steps)
                    &&& final(self)@.selected == selected_after(old(self)@.selected, steps)
                    &&& final(self)@.csw == csw_after(old(self)@.selected, old(self)@.csw, steps)
                }
            }),
    {
        let ghost start = self@;
        if address % 4 != 0 {
            proof {
                link::lemma_did_nothing(self@);
            }
            return Err(Error::Unaligned);
        }
        let ghost p = select_program(start.selected, start.csw);
        let ghost q = store_program(address as int, values@).push((DP_RDBUFF, 0u32));
        let ready: Result<(), Error> = self.select_bank_zero();
        let ghost one = self@;
        let ghost a = self@.since(start);
        if let Err(error) = ready {
            proof {
                registers::lemma_ran_short(a, p, q);
            }
            return Err(error);
        }
        let result: Result<(), Error> = self.store_and_drain(address, values);
        proof {
            let b = self@.since(one);
            registers::lemma_ran_on(a, p, b, q);
            link::lemma_did_both(start, one, self@, a, b);
            assert((a + b).take(a.len() as int) =~= a);
            lemma_setup_settled(start.selected, start.csw, a, a + b);
        }
        result
    }

    /// Writes a block with the access port set up, and waits for it to be
    /// through.
    fn store_and_drain(&mut self, address: u32, values: &[u32]) -> (result: Result<(), Error>)
        requires
            address % 4 == 0,
            address + 4 * values@.len() <= 0x1_0000_0000,
        ensures
            final(self)@.went_on(old(self)@),
            final(self)@.selected == old(self)@.selected,
            final(self)@.csw == old(self)@.csw,
            ({
                let steps = final(self)@.since(old(self)@);
                &&& registers::ran(
                    steps,
                    store_program(address as int, values@).push((DP_RDBUFF, 0u32)),
                )
                &&& result == finished(steps)
            }),
    {
        let ghost start = self@;
        let ghost q = store_program(address as int, values@);
        let ghost r = seq![(DP_RDBUFF, 0u32)];
        assert(q.push((DP_RDBUFF, 0u32)) =~= q + r);
        assert(values@.skip(0) =~= values@);
        let moved: Result<(), Error> = self.store_selected(address, values, 0);
        let ghost one = self@;
        let ghost a = self@.since(start);
        if let Err(error) = moved {
            proof {
                registers::lemma_ran_short(a, q, r);
            }
            return Err(error);
        }
        let drained: Result<u32, Error> = self.dp_read(DP_RDBUFF);
        proof {
            let b = self@.since(one);
            assert(b =~= seq![b[0]]);
            registers::lemma_ran_one(b[0], DP_RDBUFF, 0);
            registers::lemma_ran_on(a, q, b, r);
            link::lemma_did_both(start, one, self@, a, b);
        }
        match drained {
            Ok(_) => Ok(()),
            Err(error) => Err(error),
        }
    }
}

/// What a complete set-up amounts to does not change with what follows it.
proof fn lemma_setup_settled(
    selected: Option<u32>,
    csw: bool,
    setup: Seq<Step>,
    steps: Seq<Step>,
)
    requires
        setup.len() == select_program(selected, csw).len(),
        registers::failure(setup) is None,
        registers::ran(setup, select_program(selected, csw)),
        setup.len() <= steps.len(),
        steps.take(setup.len() as int) == setup,
    ensures
        selected_after(selected, steps) == selected_after(selected, setup),
        csw_after(selected, csw, steps) == csw_after(selected, csw, setup),
{
    if setup.len() > 0 {
        assert(steps.take(setup.len() as int)[0] == steps[0]);
        assert(setup.last().outcome() is Ok);
    }
    if setup.len() > 1 {
        assert(steps.take(setup.len() as int)[1] == steps[1]);
    }
}

/// The word access of [`SwdLink`] is one of its memory accesses more, and
/// otherwise the program that the block accesses run.
impl<I: SwdIo> WordMemory for SwdLink<I> {
    open spec fn accesses(&self) -> Seq<Access> {
        self@.accesses
    }

    open spec fn apart(&self) -> (Seq<Step>, int) {
        (self@.apart, self@.untold())
    }

    fn read_word(&mut self, address: u32) -> (result: Result<u32, Error>)
        ensures
            final(self)@.asked(old(self)@).went_on(old(self)@),
            final(self)@.selected == (if address % 4 != 0 {
                old(self)@.selected
            } else {
                selected_after(
                    old(self)@.selected,
                    final(self)@.asked(old(self)@).since(old(self)@),
                )
            }),
            final(self)@.csw == (if address % 4 != 0 {
                old(self)@.csw
            } else {
                csw_after(
                    old(self)@.selected,
                    old(self)@.csw,
                    final(self)@.asked(old(self)@).since(old(self)@),
                )
            }),
            ({
                let steps = final(self)@.asked(old(self)@).since(old(self)@);
                if address % 4 != 0 {
                    steps.len() == 0 && result == Err::<u32, Error>(Error::Unaligned)
                } else {
                    &&& registers::ran(steps, read_words_program(old(self)@, address, 1))
                    &&& result == (match registers::failure(steps) {
                        Some(error) => Err(error),
                        None => Ok(registers::word_at(steps, steps.len() - 1)),
                    })
                }
            }),
    {
        let mut value: [u32; 1] = [0];
        let ghost start = self@;
        let done: Result<(), Error> = self.fetch(address, &mut value);
        let result: Result<u32, Error> = match done {
            Ok(()) => Ok(value[0]),
            Err(error) => Err(error),
        };
        proof {
            if address % 4 == 0 {
                let p = select_program(start.selected, start.csw);
                assert(region_words(address as int) >= 1);
                assert(fetch_program(address as int, 1) =~= span_program(address, 1)) by {
                    assert(fetch_program(address + 4, 0) =~= Seq::empty());
                }
                assert(fetch_place(address as int, 0) == 2);
                let steps = self@.since(start);
                if registers::failure(steps) is None {
                    assert(steps.len() == p.len() + 3);
                    assert(steps_from(steps, p.len())[2] == steps[steps.len() - 1]);
                    assert(steps.last().outcome() is Ok);
                }
            }
        }
        self.note_access(Ghost(Access::Read(address, result)), Ghost(start.apart));
        assert(self@.asked(start).since(start) =~= self@.since(start));
        proof {
            link::lemma_all_is_told(start, self@);
        }
        result
    }

    fn write_word(&mut self, address: u32, value: u32) -> (result: Result<(), Error>)
        ensures
            final(self)@.asked(old(self)@).went_on(old(self)@),
            final(self)@.selected == (if address % 4 != 0 {
                old(self)@.selected
            } else {
                selected_after(
                    old(self)@.selected,
                    final(self)@.asked(old(self)@).since(old(self)@),
                )
            }),
            final(self)@.csw == (if address % 4 != 0 {
                old(self)@.csw
            } else {
                csw_after(
                    old(self)@.selected,
                    old(self)@.csw,
                    final(self)@.asked(old(self)@).since(old(self)@),
                )
            }),
            ({
                let steps = final(self)@.asked(old(self)@).since(old(self)@);
                if address % 4 != 0 {
                    steps.len() == 0 && result == Err::<(), Error>(Error::Unaligned)
                } else {
                    &&& registers::ran(
                        steps,
                        write_words_program(old(self)@, address, seq![value]),
                    )
                    &&& result == finished(steps)
                }
            }),
    {
        let values: [u32; 1] = [value];
        let ghost start = self@;
        let result: Result<(), Error> = self.store(address, &values);
        assert(values@ =~= seq![value]);
        self.note_access(Ghost(Access::Write(address, value, result)), Ghost(start.apart));
        assert(self@.asked(start).since(start) =~= self@.since(start));
        proof {
            link::lemma_all_is_told(start, self@);
        }
        result
    }

    fn read_words(&mut self, address: u32, values: &mut [u32]) -> (result: Result<(), Error>)
        ensures
            block_read(old(self)@, final(self)@, address, old(values)@, final(values)@, result),
    {
        let ghost start = self@;
        let result: Result<(), Error> = self.fetch(address, values);
        self.note_access(Ghost(Access::ReadBlock(address, values@, result)), Ghost(start.apart));
        assert(self@.asked(start).since(start) =~= self@.since(start));
        proof {
            link::lemma_all_is_told(start, self@);
        }
        result
    }

    fn write_words(&mut self, address: u32, values: &[u32]) -> (result: Result<(), Error>)
        ensures
            final(self)@.asked(old(self)@).went_on(old(self)@),
            final(self)@.selected == (if address % 4 != 0 {
                old(self)@.selected
            } else {
                selected_after(
                    old(self)@.selected,
                    final(self)@.asked(old(self)@).since(old(self)@),
                )
            }),
            final(self)@.csw == (if address % 4 != 0 {
                old(self)@.csw
            } else {
                csw_after(
                    old(self)@.selected,
                    old(self)@.csw,
                    final(self)@.asked(old(self)@).since(old(self)@),
                )
            }),
            ({
                let steps = final(self)@.asked(old(self)@).since(old(self)@);
                if address % 4 != 0 {
                    steps.len() == 0 && result == Err::<(), Error>(Error::Unaligned)
                } else {
                    &&& registers::ran(steps, write_words_program(old(self)@, address, values@))
                    &&& result == finished(steps)
                }
            }),
    {
        let ghost start = self@;
        let result: Result<(), Error> = self.store(address, values);
        self.note_access(Ghost(Access::WriteBlock(address, values@, result)), Ghost(start.apart));
        assert(self@.asked(start).since(start) =~= self@.since(start));
        proof {
            link::lemma_all_is_told(start, self@);
        }
        result
    }

    fn delay_ms(&mut self, milliseconds: u16)
        ensures
            final(self)@.asked(old(self)@).did(
                old(self)@,
                seq![Step::Pads(seq![super::io::PadOp::DelayMs(milliseconds)])],
            ),
            final(self)@.selected == old(self)@.selected,
            final(self)@.csw == old(self)@.csw,
    {
        let ghost start = self@;
        self.pause(milliseconds);
        self.note_access(Ghost(Access::Delay(milliseconds)), Ghost(start.apart));
        proof {
            let steps = seq![Step::Pads(seq![super::io::PadOp::DelayMs(milliseconds)])];
            assert(self@.asked(start).since(start) =~= steps);
            link::lemma_all_is_told(start, self@);
        }
    }
}

} // verus!
