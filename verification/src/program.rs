//! Programming a target: what an image is, what is saved before anything is
//! erased, and whether what was written is what was meant.

use crate::text;
use vstd::prelude::*;

verus! {

/// How an image file is to be read.
#[derive(Clone, Copy, Debug, Eq, PartialEq, Structural)]
pub enum ImageFormat {
    /// Raw, at a base address that has to be given.
    Bin,
    Hex,
    /// Whatever the flash loader takes by itself.
    Usual,
}

/// How an image file is to be read, by its extension.
pub fn image_format(extension: Option<&str>) -> (format: ImageFormat)
    ensures
        format == (match extension {
            Some(name) => if name@ == "bin"@ {
                ImageFormat::Bin
            } else if name@ == "hex"@ {
                ImageFormat::Hex
            } else {
                ImageFormat::Usual
            },
            None => ImageFormat::Usual,
        }),
{
    match extension {
        Some(name) => if text::same(name, "bin") {
            ImageFormat::Bin
        } else if text::same(name, "hex") {
            ImageFormat::Hex
        } else {
            ImageFormat::Usual
        },
        None => ImageFormat::Usual,
    }
}

/// How much flash from `base` on the first of some regions has that holds it
/// and whose size can be told, each as its start and its end; none being zero.
pub open spec fn flash_in(regions: Seq<(u64, u64)>, base: u64) -> u16
    decreases regions.len(),
{
    if regions.len() == 0 {
        0
    } else {
        let (start, end) = regions[0];
        if start <= base < end && (end - base) / 1024 <= u16::MAX {
            ((end - base) / 1024) as u16
        } else {
            flash_in(regions.skip(1), base)
        }
    }
}

/// How much flash there is from `base` on, in KiB.
pub fn flash_kib(regions: &[(u64, u64)], base: u64) -> (kib: u16)
    ensures
        kib == flash_in(regions@, base),
{
    let mut at: usize = 0;
    assert(regions@.skip(0) =~= regions@);
    while at < regions.len()
        invariant
            at <= regions@.len(),
            flash_in(regions@, base) == flash_in(regions@.skip(at as int), base),
        decreases regions@.len() - at,
    {
        let (start, end): (u64, u64) = regions[at];
        assert(regions@.skip(at as int)[0] == regions@[at as int]);
        if start <= base && base < end && (end - base) / 1024 <= u16::MAX as u64 {
            return ((end - base) / 1024) as u16;
        }
        assert(regions@.skip(at as int).skip(1) =~= regions@.skip(at + 1));
        at += 1;
    }
    0
}

/// How many bytes are saved before anything is erased, `None` for a part whose
/// flash size is unknown: it cannot be backed up, so it is not erased.
///
/// A device that turns out to be the wrong one, or an image that turns out to be
/// wrong, is recoverable only if this happened first.
pub fn backup_bytes(flash_kib: u16) -> (bytes: Option<usize>)
    ensures
        bytes == (if flash_kib == 0 {
            None
        } else {
            Some((flash_kib * 1024) as usize)
        }),
{
    if flash_kib == 0 {
        None
    } else {
        Some(flash_kib as usize * 1024)
    }
}

/// The first place where what was read back differs from what was wanted, up to
/// the shorter's end; `None` where both are the same. Where one only continues
/// the other, it is zero.
pub open spec fn difference(written: Seq<u8>, wanted: Seq<u8>) -> Option<int> {
    if written == wanted {
        None
    } else {
        Some(first_unlike(written, wanted, 0))
    }
}

/// The first index from `at` on at which both have a byte and the two differ,
/// or zero where there is none.
pub open spec fn first_unlike(written: Seq<u8>, wanted: Seq<u8>, at: int) -> int
    decreases written.len() - at,
{
    if at < 0 || at >= written.len() || at >= wanted.len() {
        0
    } else if written[at] != wanted[at] {
        at
    } else {
        first_unlike(written, wanted, at + 1)
    }
}

/// The first place where what was read back differs from what was wanted.
pub fn first_difference(written: &[u8], wanted: &[u8]) -> (at: Option<usize>)
    ensures
        match at {
            Some(at) => difference(written@, wanted@) == Some(at as int),
            None => difference(written@, wanted@) is None,
        },
{
    let mut at: usize = 0;
    while at < written.len() && at < wanted.len()
        invariant
            at <= written@.len(),
            at <= wanted@.len(),
            forall|i: int| 0 <= i < at ==> written@[i] == wanted@[i],
            first_unlike(written@, wanted@, 0) == first_unlike(written@, wanted@, at as int),
        decreases written@.len() - at,
    {
        if written[at] != wanted[at] {
            return Some(at);
        }
        at += 1;
    }
    if written.len() == wanted.len() {
        assert(written@ =~= wanted@);
        None
    } else {
        Some(0)
    }
}

/// One thing that only the host and its probe can do.
#[derive(Clone, Copy, Debug, Eq, PartialEq, Structural)]
pub enum ProgramAction {
    /// Read the image file.
    ReadImage,
    /// Read this much of the flash as it is.
    ReadFlash { bytes: usize },
    /// Save what was read, and tell its digest.
    Save,
    /// Erase what the image covers, write it, and have the flash algorithm
    /// verify it.
    Download,
    /// Read back as much as the image file holds.
    ReadBack,
    /// Reset the core.
    Reset,
    Over(ProgramEnd),
}

/// How programming ended.
#[derive(Clone, Copy, Debug, Eq, PartialEq, Structural)]
pub enum ProgramEnd {
    Programmed,
    /// What was last done failed.
    LastFailed,
    /// The flash size is unknown, so the part cannot be backed up.
    NoBackup,
    /// What was read back differs from the image, from this place on.
    Differs { at: usize },
}

/// What programming is waiting for.
#[derive(Clone, Copy, Debug, Eq, PartialEq, Structural)]
pub enum ProgramStage {
    Image,
    Flash,
    Backup,
    Writing,
    Checking,
    Resetting,
}

/// What came of the last action, and what is known of the target and of what
/// was read back by then.
#[derive(Clone, Copy, Debug, Eq, PartialEq, Structural)]
pub struct ProgramReport {
    pub succeeded: bool,
    pub flash_kib: u16,
    /// The first place where what was read back differs.
    pub difference: Option<usize>,
}

/// The stage that an action is waited for in.
pub open spec fn awaits(stage: ProgramStage, action: ProgramAction) -> bool {
    match stage {
        ProgramStage::Image => action is ReadImage,
        ProgramStage::Flash => action is ReadFlash,
        ProgramStage::Backup => action is Save,
        ProgramStage::Writing => action is Download,
        ProgramStage::Checking => action is ReadBack,
        ProgramStage::Resetting => action is Reset,
    }
}

impl ProgramStage {
    /// What a report leads to.
    pub open spec fn led_to(self, report: ProgramReport) -> (ProgramStage, ProgramAction) {
        if !report.succeeded {
            (self, ProgramAction::Over(ProgramEnd::LastFailed))
        } else {
            match self {
                ProgramStage::Image => if report.flash_kib == 0 {
                    (self, ProgramAction::Over(ProgramEnd::NoBackup))
                } else {
                    (
                        ProgramStage::Flash,
                        ProgramAction::ReadFlash { bytes: (report.flash_kib * 1024) as usize },
                    )
                },
                ProgramStage::Flash => (ProgramStage::Backup, ProgramAction::Save),
                ProgramStage::Backup => (ProgramStage::Writing, ProgramAction::Download),
                ProgramStage::Writing => (ProgramStage::Checking, ProgramAction::ReadBack),
                ProgramStage::Checking => match report.difference {
                    Some(at) => (self, ProgramAction::Over(ProgramEnd::Differs { at })),
                    None => (ProgramStage::Resetting, ProgramAction::Reset),
                },
                ProgramStage::Resetting => (self, ProgramAction::Over(ProgramEnd::Programmed)),
            }
        }
    }

    /// Starts with the image, so that one that cannot be read costs nothing.
    pub fn start() -> (first: (ProgramStage, ProgramAction))
        ensures
            first == (ProgramStage::Image, ProgramAction::ReadImage),
    {
        (ProgramStage::Image, ProgramAction::ReadImage)
    }

    /// Goes on with programming: back the flash up, always; write the image; and
    /// read it back over plain memory access, since an algorithm that verifies
    /// its own work is not an independent read that agrees with the file.
    pub fn next(&self, report: ProgramReport) -> (next: (ProgramStage, ProgramAction))
        ensures
            next == self.led_to(report),
    {
        if !report.succeeded {
            return (*self, ProgramAction::Over(ProgramEnd::LastFailed));
        }
        match *self {
            ProgramStage::Image => match backup_bytes(report.flash_kib) {
                None => (*self, ProgramAction::Over(ProgramEnd::NoBackup)),
                Some(bytes) => (ProgramStage::Flash, ProgramAction::ReadFlash { bytes }),
            },
            ProgramStage::Flash => (ProgramStage::Backup, ProgramAction::Save),
            ProgramStage::Backup => (ProgramStage::Writing, ProgramAction::Download),
            ProgramStage::Writing => (ProgramStage::Checking, ProgramAction::ReadBack),
            ProgramStage::Checking => match report.difference {
                Some(at) => (*self, ProgramAction::Over(ProgramEnd::Differs { at })),
                None => (ProgramStage::Resetting, ProgramAction::Reset),
            },
            ProgramStage::Resetting => (*self, ProgramAction::Over(ProgramEnd::Programmed)),
        }
    }
}

/// The actions of a run of programming that gets these reports, in order.
pub open spec fn program_actions(reports: Seq<ProgramReport>) -> Seq<ProgramAction>
    decreases reports.len(),
{
    if reports.len() == 0 {
        seq![ProgramAction::ReadImage]
    } else {
        program_actions(reports.drop_last()).push(
            program_stage(reports.drop_last()).led_to(reports.last()).1,
        )
    }
}

/// Where a run of programming is after these reports.
pub open spec fn program_stage(reports: Seq<ProgramReport>) -> ProgramStage
    decreases reports.len(),
{
    if reports.len() == 0 {
        ProgramStage::Image
    } else {
        program_stage(reports.drop_last()).led_to(reports.last()).0
    }
}

/// Did a run of programming get as far as these reports say, that is, was it not
/// over before the last of them?
pub open spec fn still_running(reports: Seq<ProgramReport>) -> bool
    decreases reports.len(),
{
    &&& !(program_actions(reports).last() is Over)
    &&& reports.len() > 0 ==> still_running(reports.drop_last())
}

proof fn lemma_actions(reports: Seq<ProgramReport>)
    requires
        still_running(reports),
    ensures
        program_actions(reports).len() == reports.len() + 1,
        awaits(program_stage(reports), program_actions(reports).last()),
        match program_stage(reports) {
            ProgramStage::Image => reports.len() == 0,
            ProgramStage::Flash => reports.len() == 1,
            ProgramStage::Backup => reports.len() == 2,
            ProgramStage::Writing => reports.len() == 3,
            ProgramStage::Checking => reports.len() == 4,
            ProgramStage::Resetting => reports.len() == 5,
        },
    decreases reports.len(),
{
    if reports.len() > 0 {
        lemma_actions(reports.drop_last());
    }
}

/// Nothing is erased or written before the whole flash was read and saved: a run
/// that asks for the image to be written has read and saved it, and both
/// succeeded.
pub proof fn law_nothing_is_erased_before_it_is_backed_up(reports: Seq<ProgramReport>)
    requires
        still_running(reports),
        program_actions(reports).last() is Download,
    ensures
        reports.len() == 3,
        program_actions(reports)[1] == (ProgramAction::ReadFlash {
            bytes: (reports[0].flash_kib * 1024) as usize,
        }),
        reports[0].flash_kib > 0,
        program_actions(reports)[2] is Save,
        reports[1].succeeded,
        reports[2].succeeded,
{
    reveal_with_fuel(still_running, 4);
    lemma_actions(reports);
    let two = reports.drop_last();
    let one = two.drop_last();
    lemma_actions(two);
    lemma_actions(one);
    lemma_actions(one.drop_last());
    assert(program_actions(two) == program_actions(reports).drop_last());
    assert(program_actions(one) == program_actions(two).drop_last());
}

/// The core is reset only once what was read back is what the image holds, and
/// only then has the target been programmed.
pub proof fn law_only_a_verified_image_is_run(stage: ProgramStage, report: ProgramReport)
    ensures
        stage.led_to(report).1 is Reset ==> stage is Checking && report.succeeded
            && report.difference is None,
        stage.led_to(report).1 == ProgramAction::Over(ProgramEnd::Programmed) ==> stage is Resetting
            && report.succeeded,
{
}

/// A run of programming in which everything goes well: the image is read before
/// anything else, the whole flash is read and saved, the image is written and
/// read back, and only then is the core reset.
pub proof fn law_programming_goes_in_order(reports: Seq<ProgramReport>)
    requires
        reports.len() == 6,
        forall|i: int| 0 <= i < 6 ==> (#[trigger] reports[i]).succeeded,
        reports[0].flash_kib > 0,
        reports[4].difference is None,
    ensures
        program_actions(reports) == seq![
            ProgramAction::ReadImage,
            ProgramAction::ReadFlash { bytes: (reports[0].flash_kib * 1024) as usize },
            ProgramAction::Save,
            ProgramAction::Download,
            ProgramAction::ReadBack,
            ProgramAction::Reset,
            ProgramAction::Over(ProgramEnd::Programmed),
        ],
{
    let five = reports.drop_last();
    let four = five.drop_last();
    let three = four.drop_last();
    let two = three.drop_last();
    let one = two.drop_last();
    assert(one.drop_last().len() == 0);
    assert(reports.last() == reports[5] && five.last() == reports[4]);
    assert(four.last() == reports[3] && three.last() == reports[2]);
    assert(two.last() == reports[1] && one.last() == reports[0]);
    reveal_with_fuel(program_actions, 7);
    reveal_with_fuel(program_stage, 7);
    assert(program_stage(one) == ProgramStage::Flash);
    assert(program_stage(two) == ProgramStage::Backup);
    assert(program_stage(three) == ProgramStage::Writing);
    assert(program_stage(four) == ProgramStage::Checking);
    assert(program_stage(five) == ProgramStage::Resetting);
    assert(program_actions(reports) =~= seq![
        ProgramAction::ReadImage,
        ProgramAction::ReadFlash { bytes: (reports[0].flash_kib * 1024) as usize },
        ProgramAction::Save,
        ProgramAction::Download,
        ProgramAction::ReadBack,
        ProgramAction::Reset,
        ProgramAction::Over(ProgramEnd::Programmed),
    ]);
}

/// Whatever fails ends the run at once, as does a part whose flash is unknown
/// and an image that reads back otherwise; and nothing else ends it but the end.
pub proof fn law_a_failure_ends_programming(stage: ProgramStage, report: ProgramReport)
    ensures
        ({
            let action = stage.led_to(report).1;
            &&& !report.succeeded <==> action == ProgramAction::Over(ProgramEnd::LastFailed)
            &&& action == ProgramAction::Over(ProgramEnd::NoBackup) <==> stage is Image
                && report.succeeded && report.flash_kib == 0
            &&& action matches ProgramAction::Over(ProgramEnd::Differs { at }) ==> stage is Checking
                && report.difference == Some(at)
            &&& stage is Checking && report.succeeded && report.difference is Some
                ==> action is Over
        }),
{
}

/// Where an image differs from what was read back: at the first byte that is not
/// the same, if there is one in both; and where there is none they are the same
/// or of different length.
pub proof fn law_a_difference_is_the_first(written: Seq<u8>, wanted: Seq<u8>, i: int)
    ensures
        difference(written, wanted) is None <==> written == wanted,
        difference(written, wanted) matches Some(at) ==> {
            &&& 0 <= i < at ==> written[i] == wanted[i]
            &&& 0 <= i < written.len() && i < wanted.len() && written[i] != wanted[i] ==> at <= i
                && written[at] != wanted[at]
            &&& at > 0 ==> at < written.len() && at < wanted.len() && written[at] != wanted[at]
        },
{
    lemma_first_unlike(written, wanted, 0, i);
}

proof fn lemma_first_unlike(written: Seq<u8>, wanted: Seq<u8>, from: int, i: int)
    requires
        0 <= from,
    ensures
        ({
            let at = first_unlike(written, wanted, from);
            &&& from <= i < at ==> written[i] == wanted[i]
            &&& from <= i < written.len() && i < wanted.len() && written[i] != wanted[i] ==> from
                <= at <= i && written[at] != wanted[at]
            &&& at > 0 ==> at < written.len() && at < wanted.len() && written[at] != wanted[at]
        }),
    decreases written.len() - from,
{
    if from < written.len() && from < wanted.len() && written[from] == wanted[from] {
        lemma_first_unlike(written, wanted, from + 1, i);
    }
}

/// How much flash there is: what is left from the base to the end of the first
/// region that holds the base, in whole kibibytes, as long as that is under 64
/// mebibytes.
pub proof fn law_flash_is_what_is_left_of_its_region(regions: Seq<(u64, u64)>, base: u64, i: int)
    requires
        0 <= i < regions.len(),
        regions[i].0 <= base < regions[i].1,
        (regions[i].1 - base) / 1024 <= 65535,
        forall|j: int| 0 <= j < i ==> !((#[trigger] regions[j]).0 <= base < regions[j].1),
    ensures
        flash_in(regions, base) == (regions[i].1 - base) / 1024,
    decreases regions.len(),
{
    if i > 0 {
        let rest = regions.skip(1);
        assert(!(regions[0].0 <= base < regions[0].1));
        assert(rest[i - 1] == regions[i]);
        assert forall|j: int| 0 <= j < i - 1 implies !((#[trigger] rest[j]).0 <= base
            < rest[j].1) by {
            assert(rest[j] == regions[j + 1]);
        }
        law_flash_is_what_is_left_of_its_region(rest, base, i - 1);
    }
}

} // verus!
