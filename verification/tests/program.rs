use esprobe::program::{
    ProgramAction, ProgramEnd, ProgramReport, ProgramStage, backup_bytes, first_difference,
    image_format, ImageFormat,
};

#[test]
fn the_extension_decides_how_an_image_is_read() {
    assert_eq!(image_format(Some("bin")), ImageFormat::Bin);
    assert_eq!(image_format(Some("hex")), ImageFormat::Hex);
    assert_eq!(image_format(Some("elf")), ImageFormat::Usual);
    assert_eq!(image_format(Some("BIN")), ImageFormat::Usual);
    assert_eq!(image_format(None), ImageFormat::Usual);
}

#[test]
fn a_part_of_unknown_size_is_not_backed_up() {
    assert_eq!(backup_bytes(64), Some(65_536));
    assert_eq!(backup_bytes(0), None);
}

#[test]
fn the_first_difference_of_a_read_back_is_found() {
    assert_eq!(first_difference(&[1, 2, 3], &[1, 2, 3]), None);
    assert_eq!(first_difference(&[1, 9, 3], &[1, 2, 3]), Some(1));
    assert_eq!(first_difference(&[1, 2], &[1, 2, 3]), Some(0));
}

fn report(flash_kib: u16, difference: Option<usize>) -> ProgramReport {
    ProgramReport { succeeded: true, flash_kib, difference }
}

/// The actions of a run whose reports are all alike.
fn run(flash_kib: u16, difference: Option<usize>, fails_at: usize) -> Vec<ProgramAction> {
    let (mut stage, mut action) = ProgramStage::start();
    let mut actions = vec![action];
    while !matches!(action, ProgramAction::Over(_)) {
        let mut told = report(flash_kib, difference);
        told.succeeded = actions.len() != fails_at;
        (stage, action) = stage.next(told);
        actions.push(action);
    }
    actions
}

#[test]
fn nothing_is_erased_before_it_is_backed_up() {
    assert_eq!(
        run(128, None, 0),
        [
            ProgramAction::ReadImage,
            ProgramAction::ReadFlash { bytes: 131_072 },
            ProgramAction::Save,
            ProgramAction::Download,
            ProgramAction::ReadBack,
            ProgramAction::Reset,
            ProgramAction::Over(ProgramEnd::Programmed),
        ]
    );
    assert_eq!(
        run(0, None, 0),
        [ProgramAction::ReadImage, ProgramAction::Over(ProgramEnd::NoBackup)]
    );
    for fails_at in 1..=3 {
        let actions = run(128, None, fails_at);
        assert!(!actions.contains(&ProgramAction::Download));
        assert_eq!(actions.last(), Some(&ProgramAction::Over(ProgramEnd::LastFailed)));
    }
}

#[test]
fn an_image_that_reads_back_differently_is_not_run() {
    let actions = run(64, Some(7), 0);
    assert!(!actions.contains(&ProgramAction::Reset));
    assert_eq!(
        actions.last(),
        Some(&ProgramAction::Over(ProgramEnd::Differs { at: 7 }))
    );
}
