//! Identifying and programming the target that the multiplexer points at.

use super::job::{self, HubState};
use super::Hub;
use crate::stm32g0::{self, Stm32G030};
use crate::swd::bring_up;
use crate::swd::link::LinkView;
use crate::swd::memory::Access;
use crate::swd::{Error, SwdIo, SwdLink};
use vstd::prelude::*;

verus! {

/// Why a target could not be identified or programmed.
#[derive(Clone, Copy, Debug, Eq, PartialEq, Structural)]
pub enum TargetError {
    /// There is no wire.
    NoWire,
    /// The debug port did not come up.
    Wire(Error),
    /// The device did not answer as it should.
    Device(stm32g0::Error),
}

/// The debug port brought up, and the device worked on through it and in no
/// other way than by accesses to its memory.
pub open spec fn worked(
    before: LinkView,
    up: LinkView,
    after: LinkView,
    brought_up: Result<u32, Error>,
    swdio: bool,
    swclk: bool,
) -> bool {
    &&& up.went_on(before)
    &&& bring_up::initialized(up.since(before), swdio, swclk, brought_up)
    &&& brought_up is Err ==> after == up
    &&& after.apart == up.apart
    &&& after.untold() == up.untold()
    &&& after.framing == up.framing
    &&& after.accesses == up.accesses + after.accesses.skip(up.accesses.len() as int)
}

/// A device written and let run.
pub open spec fn written_of(accesses: Seq<Access>, image: Seq<u8>) -> stm32g0::Ran<u32> {
    match stm32g0::flash_of(accesses, image) {
        None => None,
        Some((Err(error), rest)) => Some((Err(error), rest)),
        Some((Ok(idcode), rest)) => match stm32g0::reset_of(rest) {
            None => None,
            Some((Err(error), rest)) => Some((Err(error), rest)),
            Some((Ok(_), rest)) => Some((Ok(idcode), rest)),
        },
    }
}

/// What both steps of the work amount to.
pub open spec fn told(
    brought_up: Result<u32, Error>,
    ran: stm32g0::Ran<u32>,
    result: Result<(u32, u32), TargetError>,
) -> bool {
    match brought_up {
        Err(error) => result == Err::<(u32, u32), TargetError>(TargetError::Wire(error)),
        Ok(dp_id) => match ran {
            Some((Ok(device), rest)) => rest.len() == 0 && result == Ok::<
                (u32, u32),
                TargetError,
            >((dp_id, device)),
            Some((Err(error), rest)) => rest.len() == 0 && result == Err::<
                (u32, u32),
                TargetError,
            >(TargetError::Device(error)),
            None => false,
        },
    }
}

/// A target identified: whatever came of it, the lines are let go of.
pub open spec fn identified(
    before: HubState,
    after: HubState,
    result: Result<(u32, u32), TargetError>,
    up: LinkView,
    middle: LinkView,
    brought_up: Result<u32, Error>,
    swdio: bool,
    swclk: bool,
) -> bool {
    &&& after == (HubState { link: after.link, ..before })
    &&& before.link is Some
    &&& after.link is Some
    &&& worked(before.link->0, up, middle, brought_up, swdio, swclk)
    &&& told(
        brought_up,
        stm32g0::identify_of(middle.accesses.skip(up.accesses.len() as int)),
        result,
    )
    &&& job::did_afresh(middle, after.link->0, job::letting_go())
}

/// A target programmed: whatever came of it, the lines are let go of.
pub open spec fn programmed(
    before: HubState,
    after: HubState,
    image: Seq<u8>,
    result: Result<(u32, u32), TargetError>,
    up: LinkView,
    middle: LinkView,
    brought_up: Result<u32, Error>,
    swdio: bool,
    swclk: bool,
) -> bool {
    &&& after == (HubState { link: after.link, ..before })
    &&& before.link is Some
    &&& after.link is Some
    &&& worked(before.link->0, up, middle, brought_up, swdio, swclk)
    &&& told(
        brought_up,
        written_of(middle.accesses.skip(up.accesses.len() as int), image),
        result,
    )
    &&& job::did_afresh(middle, after.link->0, job::letting_go())
}

fn identify<I: SwdIo>(link: &mut SwdLink<I>) -> (result: Result<u32, stm32g0::Error>)
    ensures
        ({
            let accesses = final(link)@.accesses.skip(old(link)@.accesses.len() as int);
            &&& final(link)@.accesses == old(link)@.accesses + accesses
            &&& final(link)@.apart == old(link)@.apart
            &&& final(link)@.untold() == old(link)@.untold()
            &&& stm32g0::identify_of(accesses) == Some((result, Seq::<Access>::empty()))
        }),
{
    let ghost start = link@.accesses;
    let mut target = Stm32G030::new(link);
    let result: Result<u32, stm32g0::Error> = target.identify();
    proof {
        let a = target.since(start);
        assert(a + Seq::empty() =~= a);
    }
    result
}

fn write<I: SwdIo>(link: &mut SwdLink<I>, image: &[u8]) -> (result: Result<u32, stm32g0::Error>)
    ensures
        ({
            let accesses = final(link)@.accesses.skip(old(link)@.accesses.len() as int);
            &&& final(link)@.accesses == old(link)@.accesses + accesses
            &&& final(link)@.apart == old(link)@.apart
            &&& final(link)@.untold() == old(link)@.untold()
            &&& written_of(accesses, image@) == Some((result, Seq::<Access>::empty()))
        }),
{
    let ghost start = link@.accesses;
    let mut target = Stm32G030::new(link);
    let flashed: Result<u32, stm32g0::Error> = target.program_and_verify(image);
    let ghost one = target.accesses();
    let ghost a = target.since(start);
    proof {
        assert(a + Seq::empty() =~= a);
    }
    let idcode: u32 = match flashed {
        Ok(idcode) => idcode,
        Err(error) => return Err(error),
    };
    let reset: Result<(), stm32g0::Error> = target.reset();
    proof {
        let two = target.accesses();
        let b = target.since(one);
        assert(two =~= start + (a + b));
        assert(two.skip(start.len() as int) =~= a + b);
        assert(b + Seq::empty() =~= b);
        assert(stm32g0::flash_of(a + b, image@) == Some((flashed, b)));
        assert(stm32g0::reset_of(b) == Some((reset, Seq::<Access>::empty())));
    }
    match reset {
        Ok(_) => Ok(idcode),
        Err(error) => Err(error),
    }
}

impl<I: SwdIo> Hub<I> {
    /// Identifies the target that the multiplexer points at: its debug port and
    /// its device.
    pub fn probe_stm32(&mut self) -> (result: Result<(u32, u32), TargetError>)
        ensures
            match old(self)@.link {
                None => final(self)@ == old(self)@ && result == Err::<(u32, u32), TargetError>(
                    TargetError::NoWire,
                ),
                Some(_) => exists|
                    up: LinkView,
                    middle: LinkView,
                    brought_up: Result<u32, Error>,
                    swdio: bool,
                    swclk: bool,
                |
                    #[trigger] identified(
                        old(self)@,
                        final(self)@,
                        result,
                        up,
                        middle,
                        brought_up,
                        swdio,
                        swclk,
                    ),
            },
            final(self).pins == old(self).pins,
    {
        let ghost before = self@;
        match &mut self.swd {
            None => Err(TargetError::NoWire),
            Some(link) => {
                let ghost start = link@;
                proof {
                    link.lemma_framing();
                }
                let brought_up: Result<u32, Error> = link.initialize();
                let ghost up = link@;
                let ghost (swdio, swclk) = choose|swdio: bool, swclk: bool| #[trigger]
                    bring_up::initialized(up.since(start), swdio, swclk, brought_up);
                let result: Result<(u32, u32), TargetError> = match brought_up {
                    Err(error) => Err(TargetError::Wire(error)),
                    Ok(dp_id) => match identify(link) {
                        Ok(device) => Ok((dp_id, device)),
                        Err(error) => Err(TargetError::Device(error)),
                    },
                };
                let ghost middle = link@;
                proof {
                    link.lemma_framing();
                    if brought_up is Err {
                        assert(middle.accesses =~= up.accesses + middle.accesses.skip(
                            up.accesses.len() as int,
                        ));
                    }
                }
                link.disconnect();
                assert(identified(
                    before,
                    self@,
                    result,
                    up,
                    middle,
                    brought_up,
                    swdio,
                    swclk,
                ));
                result
            },
        }
    }

    /// Programs the target that the multiplexer points at, reads the image back
    /// and lets the target run: its debug port and its device.
    pub fn flash_stm32(&mut self, image: &[u8]) -> (result: Result<(u32, u32), TargetError>)
        ensures
            match old(self)@.link {
                None => final(self)@ == old(self)@ && result == Err::<(u32, u32), TargetError>(
                    TargetError::NoWire,
                ),
                Some(_) => exists|
                    up: LinkView,
                    middle: LinkView,
                    brought_up: Result<u32, Error>,
                    swdio: bool,
                    swclk: bool,
                |
                    #[trigger] programmed(
                        old(self)@,
                        final(self)@,
                        image@,
                        result,
                        up,
                        middle,
                        brought_up,
                        swdio,
                        swclk,
                    ),
            },
            final(self).pins == old(self).pins,
    {
        let ghost before = self@;
        match &mut self.swd {
            None => Err(TargetError::NoWire),
            Some(link) => {
                let ghost start = link@;
                proof {
                    link.lemma_framing();
                }
                let brought_up: Result<u32, Error> = link.initialize();
                let ghost up = link@;
                let ghost (swdio, swclk) = choose|swdio: bool, swclk: bool| #[trigger]
                    bring_up::initialized(up.since(start), swdio, swclk, brought_up);
                let result: Result<(u32, u32), TargetError> = match brought_up {
                    Err(error) => Err(TargetError::Wire(error)),
                    Ok(dp_id) => match write(link, image) {
                        Ok(device) => Ok((dp_id, device)),
                        Err(error) => Err(TargetError::Device(error)),
                    },
                };
                let ghost middle = link@;
                proof {
                    link.lemma_framing();
                    if brought_up is Err {
                        assert(middle.accesses =~= up.accesses + middle.accesses.skip(
                            up.accesses.len() as int,
                        ));
                    }
                }
                link.disconnect();
                assert(programmed(
                    before,
                    self@,
                    image@,
                    result,
                    up,
                    middle,
                    brought_up,
                    swdio,
                    swclk,
                ));
                result
            },
        }
    }
}

} // verus!
