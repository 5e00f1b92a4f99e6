//! Access to the registers of a debug or access port.

use super::link;
use super::io::SwdIo;
use super::wire::{DP_RDBUFF, Error, TRANSFER_AP, TRANSFER_READ};
use super::link::{Step, SwdLink};
use vstd::prelude::*;

verus! {

/// Transfers to be made in order, each by its request and its data.
pub type Program = Seq<(u8, u32)>;

/// Are `steps` the transfers of `program`, up to the first that failed?
pub open spec fn ran(steps: Seq<Step>, program: Program) -> bool {
    &&& steps.len() <= program.len()
    &&& forall|i: int|
        0 <= i < steps.len() ==> (#[trigger] steps[i]).moves(program[i].0, program[i].1)
    &&& forall|i: int| 0 <= i < steps.len() - 1 ==> (#[trigger] steps[i]).outcome() is Ok
    &&& steps.len() < program.len() ==> steps.len() > 0 && steps.last().outcome() is Err
}

/// The error that ended `steps`, if one did.
pub open spec fn failure(steps: Seq<Step>) -> Option<Error> {
    if steps.len() > 0 && steps.last().outcome() is Err {
        Some(steps.last().outcome()->Err_0)
    } else {
        None
    }
}

/// Did the transfer at `at` succeed?
pub open spec fn done(steps: Seq<Step>, at: int) -> bool {
    0 <= at < steps.len() && steps[at].outcome() is Ok
}

/// The word that the transfer at `at` moved.
pub open spec fn word_at(steps: Seq<Step>, at: int) -> u32 {
    steps[at].outcome()->Ok_0
}

/// A program runs on where another ended without failing.
pub(crate) proof fn lemma_ran_on(a: Seq<Step>, p: Program, b: Seq<Step>, q: Program)
    requires
        ran(a, p),
        failure(a) is None,
        ran(b, q),
    ensures
        ran(a + b, p + q),
        a.len() == p.len(),
        b.len() > 0 ==> failure(a + b) == failure(b),
        b.len() == 0 ==> failure(a + b) is None,
{
    let (s, r) = (a + b, p + q);
    assert forall|i: int| 0 <= i < s.len() implies (#[trigger] s[i]).moves(r[i].0, r[i].1) by {
        if i < a.len() {
            assert(s[i] == a[i] && r[i] == p[i]);
        } else {
            assert(s[i] == b[i - a.len()] && r[i] == q[i - a.len()]);
        }
    }
    assert forall|i: int| 0 <= i < s.len() - 1 implies (#[trigger] s[i]).outcome() is Ok by {
        if i < a.len() {
            assert(s[i] == a[i]);
            if i == a.len() - 1 {
                assert(a.last().outcome() is Ok);
            }
        } else {
            assert(s[i] == b[i - a.len()]);
        }
    }
    if b.len() > 0 {
        assert(s.last() == b.last());
    } else {
        assert(s =~= a);
    }
}

/// A program that failed is the start of any longer one.
pub(crate) proof fn lemma_ran_short(a: Seq<Step>, p: Program, q: Program)
    requires
        ran(a, p),
        failure(a) is Some,
    ensures
        ran(a, p + q),
{
    assert forall|i: int| 0 <= i < a.len() implies (#[trigger] a[i]).moves(
        (p + q)[i].0,
        (p + q)[i].1,
    ) by {
        assert((p + q)[i] == p[i]);
    }
}

pub(crate) proof fn lemma_ran_one(step: Step, request: u8, data: u32)
    requires
        step.moves(request, data),
    ensures
        ran(seq![step], seq![(request, data)]),
        failure(seq![step]) == (match step.outcome() {
            Ok(_) => None,
            Err(error) => Some(error),
        }),
{
}

/// Is `address` one of a port's four word registers?
pub open spec fn is_register(address: u8) -> bool {
    address % 4 == 0 && address <= 12
}

/// The request that reads or writes a register of a port.
pub open spec fn register_request(access_port: bool, read: bool, address: u8) -> u8 {
    ((if access_port {
        1int
    } else {
        0
    }) + (if read {
        2int
    } else {
        0
    }) + address) as u8
}

/// The transfers that read a register `count` times.
///
/// Reads of an access port are posted: the value that one transfer asks for
/// comes with the next, and the last with a read of RDBUFF.
pub open spec fn block_read_program(access_port: bool, address: u8, count: nat) -> Program {
    let asked = Seq::new(count, |i: int| (register_request(access_port, true, address), 0u32));
    if access_port && count > 0 {
        asked.push((DP_RDBUFF, 0u32))
    } else {
        asked
    }
}

/// Where in a block read the word numbered `i` arrives.
pub open spec fn block_read_place(access_port: bool, i: int) -> int {
    if access_port {
        i + 1
    } else {
        i
    }
}

/// The transfers that write `values` to a register.
pub open spec fn block_write_program(access_port: bool, address: u8, values: Seq<u32>) -> Program {
    Seq::new(values.len(), |i: int| (register_request(access_port, false, address), values[i]))
}

/// What a block read leaves in a buffer: each word that arrived, and the rest
/// as it was.
pub open spec fn block_filled(
    steps: Seq<Step>,
    access_port: bool,
    before: Seq<u32>,
    after: Seq<u32>,
) -> bool {
    &&& after.len() == before.len()
    &&& forall|i: int|
        0 <= i < after.len() ==> #[trigger] after[i] == (if done(
            steps,
            block_read_place(access_port, i),
        ) {
            word_at(steps, block_read_place(access_port, i))
        } else {
            before[i]
        })
}

impl<I: SwdIo> SwdLink<I> {
    pub(crate) fn dp_read(&mut self, request: u8) -> (result: Result<u32, Error>)
        ensures
            ({
                let steps = final(self)@.since(old(self)@);
                &&& final(self)@.did(old(self)@, steps)
                &&& steps.len() == 1
                &&& steps[0].moves(request, 0)
                &&& steps[0].outcome() == result
            }),
            final(self)@.selected == old(self)@.selected,
            final(self)@.csw == old(self)@.csw,
    {
        self.transfer(request, 0)
    }

    pub(crate) fn dp_write(&mut self, request: u8, value: u32) -> (result: Result<(), Error>)
        ensures
            ({
                let steps = final(self)@.since(old(self)@);
                &&& final(self)@.did(old(self)@, steps)
                &&& steps.len() == 1
                &&& steps[0].moves(request, value)
                &&& result == (match steps[0].outcome() {
                    Ok(_) => Ok(()),
                    Err(error) => Err(error),
                })
            }),
            final(self)@.selected == old(self)@.selected,
            final(self)@.csw == old(self)@.csw,
    {
        match self.transfer(request, value) {
            Ok(_) => Ok(()),
            Err(error) => Err(error),
        }
    }

    pub fn raw_read_register(&mut self, access_port: bool, address: u8) -> (result: Result<
        u32,
        Error,
    >)
        ensures
            final(self)@.went_on(old(self)@),
            final(self)@.selected == old(self)@.selected,
            final(self)@.csw == old(self)@.csw,
            ({
                let steps = final(self)@.since(old(self)@);
                if !is_register(address) {
                    steps.len() == 0 && result == Err::<u32, Error>(Error::Protocol(address))
                } else {
                    &&& ran(steps, block_read_program(access_port, address, 1))
                    &&& result == (match failure(steps) {
                        Some(error) => Err(error),
                        None => Ok(word_at(steps, block_read_place(access_port, 0))),
                    })
                }
            }),
    {
        if address % 4 != 0 || address > 12 {
            proof {
                link::lemma_did_nothing(self@);
            }
            return Err(Error::Protocol(address));
        }
        let request: u8 = (if access_port { TRANSFER_AP } else { 0 }) + TRANSFER_READ + address;
        let ghost program = block_read_program(access_port, address, 1);
        let value: u32 = match self.transfer(request, 0) {
            Ok(value) => value,
            Err(error) => return Err(error),
        };
        if access_port {
            let ghost middle = self@;
            let ghost first = self@.since(old(self)@);
            let result: Result<u32, Error> = self.dp_read(DP_RDBUFF);
            proof {
                let second = self@.since(middle);
                link::lemma_did_both(old(self)@, middle, self@, first, second);
                assert(program =~= seq![(request, 0u32), (DP_RDBUFF, 0u32)]);
            }
            result
        } else {
            assert(program =~= seq![(request, 0u32)]);
            Ok(value)
        }
    }

    /// Reads one register repeatedly without a host round trip per word.
    ///
    /// AP reads are posted: the value requested by one transfer is returned by
    /// the next, so a block of `n` words costs `n + 1` transfers instead of the
    /// `2n` a naive read-then-RDBUFF loop would need.
    pub fn raw_read_register_block(
        &mut self,
        access_port: bool,
        address: u8,
        values: &mut [u32],
    ) -> (result: Result<(), Error>)
        ensures
            final(self)@.went_on(old(self)@),
            final(self)@.selected == old(self)@.selected,
            final(self)@.csw == old(self)@.csw,
            ({
                let steps = final(self)@.since(old(self)@);
                if !is_register(address) {
                    &&& steps.len() == 0
                    &&& result == Err::<(), Error>(Error::Protocol(address))
                    &&& final(values)@ == old(values)@
                } else {
                    &&& ran(
                        steps,
                        block_read_program(access_port, address, old(values)@.len()),
                    )
                    &&& block_filled(steps, access_port, old(values)@, final(values)@)
                    &&& result == (match failure(steps) {
                        Some(error) => Err(error),
                        None => Ok(()),
                    })
                }
            }),
    {
        if address % 4 != 0 || address > 12 {
            proof {
                link::lemma_did_nothing(self@);
            }
            return Err(Error::Protocol(address));
        }
        let count: usize = values.len();
        let result: Result<(), Error> = self.read_block(access_port, address, values, 0, count);
        assert(old(values)@.subrange(0, count as int) =~= old(values)@);
        assert(values@.subrange(0, count as int) =~= values@);
        result
    }

    /// Reads a register `count` times into `values[from..]`.
    pub(crate) fn read_block(
        &mut self,
        access_port: bool,
        address: u8,
        values: &mut [u32],
        from: usize,
        count: usize,
    ) -> (result: Result<(), Error>)
        requires
            from + count <= old(values)@.len(),
            is_register(address),
        ensures
            final(self)@.went_on(old(self)@),
            final(self)@.selected == old(self)@.selected,
            final(self)@.csw == old(self)@.csw,
            ({
                let steps = final(self)@.since(old(self)@);
                &&& ran(steps, block_read_program(access_port, address, count as nat))
                &&& block_filled(
                    steps,
                    access_port,
                    old(values)@.subrange(from as int, from + count),
                    final(values)@.subrange(from as int, from + count),
                )
                &&& final(values)@.len() == old(values)@.len()
                &&& forall|i: int|
                    0 <= i < final(values)@.len() && !(from <= i < from + count) ==> #[trigger]
                    final(values)@[i] == old(values)@[i]
                &&& result == (match failure(steps) {
                    Some(error) => Err(error),
                    None => Ok(()),
                })
            }),
    {
        let ghost start = self@;
        let ghost before = values@;
        let len: usize = values.len();
        let request: u8 = (if access_port { TRANSFER_AP } else { 0 }) + TRANSFER_READ + address;
        let ghost program = block_read_program(access_port, address, count as nat);
        let ghost mut steps: Seq<Step> = Seq::empty();
        proof {
            link::lemma_did_nothing(self@);
        }
        if count == 0 {
            return Ok(());
        }
        // Transfers that bring the word before the one they ask for: none for
        // a debug port, all but the first for an access port.
        let lag: usize = if access_port { 1 } else { 0 };
        let mut made: usize = 0;
        while made < count
            invariant
                made <= count,
                from + count <= len,
                len == values@.len(),
                values@.len() == before.len(),
                lag == (if access_port { 1int } else { 0 }),
                self@.did(start, steps),
                self@.since(start) == steps,
                self@.selected == start.selected,
                self@.csw == start.csw,
                steps.len() == made,
                request == register_request(access_port, true, address),
                forall|i: int|
                    0 <= i < made ==> (#[trigger] steps[i]).moves(request, 0) && steps[i].outcome() is Ok,
                forall|i: int|
                    0 <= i < values@.len() ==> #[trigger] values@[i] == (if from <= i < from + made
                        - lag {
                        word_at(steps, i - from + lag)
                    } else {
                        before[i]
                    }),
                program == block_read_program(access_port, address, count as nat),
                start == old(self)@,
                before == old(values)@,
            decreases count - made,
        {
            let ghost middle = self@;
            let ghost earlier = steps;
            let result: Result<u32, Error> = self.transfer(request, 0);
            proof {
                let new = self@.since(middle);
                link::lemma_did_both(start, middle, self@, earlier, new);
                steps = earlier + new;
                assert forall|i: int| 0 <= i < made implies steps[i] == #[trigger] earlier[i] by {}
                assert(steps[made as int] == new[0]);
            }
            match result {
                Ok(value) => {
                    if made >= lag {
                        values[from + made - lag] = value;
                    }
                },
                Err(error) => {
                    proof {
                        assert(steps.last() == steps[made as int]);
                        assert(ran(steps, program));
                        let after = values@.subrange(from as int, from + count);
                        assert forall|i: int| 0 <= i < count implies #[trigger] after[i] == (if done(
                            steps,
                            block_read_place(access_port, i),
                        ) {
                            word_at(steps, block_read_place(access_port, i))
                        } else {
                            before.subrange(from as int, from + count)[i]
                        }) by {
                            assert(after[i] == values@[from + i]);
                            if i + lag < made {
                                assert(steps[i + lag] == earlier[i + lag]);
                            }
                        }
                    }
                    return Err(error);
                },
            }
            made += 1;
        }
        if access_port {
            let ghost middle = self@;
            let ghost earlier = steps;
            let result: Result<u32, Error> = self.dp_read(DP_RDBUFF);
            proof {
                let new = self@.since(middle);
                link::lemma_did_both(start, middle, self@, earlier, new);
                steps = earlier + new;
                assert forall|i: int| 0 <= i < count implies steps[i] == #[trigger] earlier[i] by {}
                assert(steps[count as int] == new[0]);
                assert(steps.last() == new[0]);
                assert(ran(steps, program));
            }
            let ghost held = values@;
            match result {
                Ok(value) => {
                    values[from + count - 1] = value;
                },
                Err(_) => {},
            }
            proof {
                let after = values@.subrange(from as int, from + count);
                assert forall|i: int| 0 <= i < count implies #[trigger] after[i] == (if done(
                    steps,
                    block_read_place(access_port, i),
                ) {
                    word_at(steps, block_read_place(access_port, i))
                } else {
                    before.subrange(from as int, from + count)[i]
                }) by {
                    assert(after[i] == values@[from + i]);
                    if i < count - 1 {
                        assert(values@[from + i] == held[from + i]);
                        assert(steps[i + 1] == earlier[i + 1]);
                    }
                }
            }
            match result {
                Ok(_) => Ok(()),
                Err(error) => Err(error),
            }
        } else {
            proof {
                assert(ran(steps, program));
                let after = values@.subrange(from as int, from + count);
                assert forall|i: int| 0 <= i < count implies #[trigger] after[i] == (if done(
                    steps,
                    block_read_place(access_port, i),
                ) {
                    word_at(steps, block_read_place(access_port, i))
                } else {
                    before.subrange(from as int, from + count)[i]
                }) by {
                    assert(after[i] == values@[from + i]);
                }
            }
            Ok(())
        }
    }

    /// Writes one register repeatedly without a host round trip per word.
    ///
    /// Writes are not posted, so this is a plain loop; the saving is entirely
    /// in the transport, which is what dominates a flash download.
    pub fn raw_write_register_block(
        &mut self,
        access_port: bool,
        address: u8,
        values: &[u32],
    ) -> (result: Result<(), Error>)
        ensures
            final(self)@.went_on(old(self)@),
            final(self)@.selected == old(self)@.selected,
            final(self)@.csw == old(self)@.csw,
            ({
                let steps = final(self)@.since(old(self)@);
                if !is_register(address) {
                    steps.len() == 0 && result == Err::<(), Error>(Error::Protocol(address))
                } else {
                    &&& ran(steps, block_write_program(access_port, address, values@))
                    &&& result == (match failure(steps) {
                        Some(error) => Err(error),
                        None => Ok(()),
                    })
                }
            }),
    {
        if address % 4 != 0 || address > 12 {
            proof {
                link::lemma_did_nothing(self@);
            }
            return Err(Error::Protocol(address));
        }
        let request: u8 = (if access_port { TRANSFER_AP } else { 0 }) + address;
        let count: usize = values.len();
        self.write_block(request, values, 0, count)
    }

    /// Writes `values[from..][..count]`, one after the other, with `request`.
    pub(crate) fn write_block(&mut self, request: u8, values: &[u32], from: usize, count: usize) -> (result:
        Result<(), Error>)
        requires
            from + count <= values@.len(),
        ensures
            final(self)@.went_on(old(self)@),
            final(self)@.selected == old(self)@.selected,
            final(self)@.csw == old(self)@.csw,
            ({
                let steps = final(self)@.since(old(self)@);
                &&& ran(
                    steps,
                    Seq::new(count as nat, |i: int| (request, values@[from + i])),
                )
                &&& result == (match failure(steps) {
                    Some(error) => Err(error),
                    None => Ok(()),
                })
            }),
    {
        let ghost start = self@;
        let ghost program = Seq::new(count as nat, |i: int| (request, values@[from + i]));
        let ghost mut steps: Seq<Step> = Seq::empty();
        proof {
            link::lemma_did_nothing(self@);
        }
        let len: usize = values.len();
        let mut made: usize = 0;
        while made < count
            invariant
                made <= count,
                from + count <= len,
                len == values@.len(),
                start == old(self)@,
                self@.did(start, steps),
                self@.since(start) == steps,
                self@.selected == start.selected,
                self@.csw == start.csw,
                steps.len() == made,
                program == Seq::new(count as nat, |i: int| (request, values@[from + i])),
                forall|i: int|
                    0 <= i < made ==> (#[trigger] steps[i]).moves(program[i].0, program[i].1)
                        && steps[i].outcome() is Ok,
            decreases count - made,
        {
            let ghost middle = self@;
            let ghost earlier = steps;
            let result: Result<u32, Error> = self.transfer(request, values[from + made]);
            proof {
                let new = self@.since(middle);
                link::lemma_did_both(start, middle, self@, earlier, new);
                steps = earlier + new;
                assert forall|i: int| 0 <= i < made implies steps[i] == #[trigger] earlier[i] by {}
                assert(steps[made as int] == new[0]);
            }
            if let Err(error) = result {
                assert(steps.last() == steps[made as int]);
                assert(ran(steps, program));
                return Err(error);
            }
            made += 1;
        }
        assert(ran(steps, program));
        Ok(())
    }

    pub fn raw_write_register(&mut self, access_port: bool, address: u8, value: u32) -> (result:
        Result<(), Error>)
        ensures
            final(self)@.went_on(old(self)@),
            final(self)@.selected == old(self)@.selected,
            final(self)@.csw == old(self)@.csw,
            ({
                let steps = final(self)@.since(old(self)@);
                if !is_register(address) {
                    steps.len() == 0 && result == Err::<(), Error>(Error::Protocol(address))
                } else {
                    &&& ran(steps, block_write_program(access_port, address, seq![value]))
                    &&& result == (match failure(steps) {
                        Some(error) => Err(error),
                        None => Ok(()),
                    })
                }
            }),
    {
        if address % 4 != 0 || address > 12 {
            proof {
                link::lemma_did_nothing(self@);
            }
            return Err(Error::Protocol(address));
        }
        let request: u8 = (if access_port { TRANSFER_AP } else { 0 }) + address;
        let result: Result<(), Error> = self.dp_write(request, value);
        assert(block_write_program(access_port, address, seq![value]) =~= seq![(request, value)]);
        result
    }
}

} // verus!
