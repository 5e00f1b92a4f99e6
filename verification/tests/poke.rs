use esprobe::poke::{plan, tell, After, Poke};
use esprobe::program::flash_kib;
use esprobe::report;

#[test]
fn one_word_is_read_written_and_read_back() {
    let steps = plan(0xe004_2004, 7);
    assert_eq!(steps[0], Poke::Identity);
    assert_eq!(steps.last(), Some(&Poke::Status(After::ReadBack)));
    let memory: Vec<&Poke> = steps
        .iter()
        .filter(|step| {
            matches!(
                step,
                Poke::Memory { .. }
                    | Poke::Write {
                        access_port: true,
                        register: 0x0c,
                        ..
                    }
            )
        })
        .collect();
    assert_eq!(
        memory,
        [
            &Poke::Memory { back: false },
            &Poke::Write {
                access_port: true,
                register: 0x0c,
                value: 7
            },
            &Poke::Memory { back: true }
        ]
    );
}

#[test]
fn what_a_step_reads_is_told() {
    assert_eq!(
        tell(Poke::Identity, 0, 0x0bc1_1477).as_deref(),
        Some("dpidr                 0x0bc11477")
    );
    assert_eq!(
        tell(Poke::Memory { back: true }, 0xe004_2004, 7).as_deref(),
        Some("memory readback       0xe0042004 -> 0x00000007")
    );
    assert_eq!(
        tell(Poke::Status(After::Csw), 0, 0xa0).as_deref(),
        Some("after csw write        ctrl_stat=0x000000a0 sticky_err=1 wdata_err=1 sticky_orun=0")
    );
    let write = Poke::Write {
        access_port: false,
        register: 8,
        value: 0,
    };
    assert_eq!(tell(write, 0, 0), None);
}

#[test]
fn a_register_is_told_with_its_value_or_why_not() {
    assert_eq!(
        report::register("R0", Ok(0x2000_0000)),
        "R0           0x0000000020000000"
    );
    assert_eq!(
        report::register("FPSCR", Err("no such register")),
        "FPSCR        unavailable (no such register)"
    );
}

#[test]
fn the_flash_is_the_region_at_its_base() {
    let regions = [(0x2000_0000, 0x2000_2000), (0x0800_0000, 0x0801_0000)];
    assert_eq!(flash_kib(&regions, 0x0800_0000), 64);
    assert_eq!(flash_kib(&regions[..1], 0x0800_0000), 0);
    assert_eq!(flash_kib(&[], 0), 0);
}
