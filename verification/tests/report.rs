use esprobe::report::{
    bytes_line, identity, lines, loopback, loopback_request, network, network_request, pads, pin_map,
    position, recovered, reset, reset_cycled, reset_lines, sticky, swdio_driven, wire, wire_request,
    words_at, write_probe, write_probe_request, written_at, ResetStep, WireTest,
};

#[test]
fn line_levels_are_told() {
    assert_eq!(
        lines(&[1, 0, 1]).unwrap(),
        "released swdio=1 swclk=0 reset_all=1"
    );
    assert_eq!(lines(&[1, 0]).unwrap_err(), "invalid line-state response");
    assert_eq!(
        reset_lines(&[1, 0, 0, 1, 0, 1]).unwrap(),
        "asserted swdio=1 swclk=0 reset_all=0; released swdio=1 swclk=0 reset_all=1"
    );
    assert_eq!(
        reset_lines(&[]).unwrap_err(),
        "invalid reset-line-state response"
    );
    assert_eq!(
        pads(&[0, 1, 0, 1]).unwrap(),
        "swdio_low=0 swdio_high=1 swclk_low=0 swclk_high=1"
    );
    assert_eq!(pads(&[0]).unwrap_err(), "invalid pad-self-test response");
    assert_eq!(
        pin_map(&[1, 2, 21, 10, 20, 4, 3]).unwrap(),
        "SWDIO=GPIO1 SWCLK=GPIO2 RESET_ALL=GPIO21 ASW_S0=GPIO10 ASW_S1=GPIO20 DISP_TX=GPIO4 \
         DISP_RX=GPIO3"
    );
    assert_eq!(pin_map(&[1]).unwrap_err(), "invalid pin-map response");
    assert_eq!(
        recovered(&[1, 0], 128).unwrap(),
        "released swdio=1 swclk=0 cycles=128"
    );
    assert_eq!(recovered(&[1], 128).unwrap_err(), "invalid recover response");
}

#[test]
fn the_reset_line_is_told() {
    assert_eq!(reset(&[0], ResetStep::Assert).unwrap(), "reset_all=0 held=true");
    assert_eq!(reset(&[1], ResetStep::Release).unwrap(), "reset_all=1 held=false");
    assert_eq!(
        reset(&[1], ResetStep::Last).unwrap(),
        "reset_all=1 held=false stopped=true"
    );
    assert_eq!(
        reset(&[], ResetStep::Assert).unwrap_err(),
        "invalid reset-assert response"
    );
    assert_eq!(
        reset(&[1, 1], ResetStep::Release).unwrap_err(),
        "invalid reset-release response"
    );
    assert_eq!(
        reset(&[], ResetStep::Last).unwrap_err(),
        "invalid final reset-release response"
    );
    assert_eq!(reset_cycled(&[], true), "reset_all=1 held=true");
    assert_eq!(reset_cycled(&[], false), "reset_all=0 held=false");
    assert_eq!(reset_cycled(&[7], false), "reset_all=7 held=false");
    assert_eq!(swdio_driven(1, &[0]), "driven_swdio=1 observed_swdio=0");
    assert_eq!(swdio_driven(1, &[]), "driven_swdio=1 observed_swdio=255");
}

#[test]
fn identities_and_bytes_are_told_in_hexadecimal() {
    assert_eq!(
        identity(&[0x77, 0x14, 0xc1, 0x0b, 0x66, 4, 0, 0]).unwrap(),
        "dp_id=0x0bc11477 device_id=0x00000466"
    );
    assert_eq!(identity(&[0]).unwrap_err(), "invalid recovery-probe response");
    assert_eq!(bytes_line("stm32_uart_rx=", &[0x0a, 0xff]), "stm32_uart_rx=0aff");
    assert_eq!(
        position("aux0", &[1, 0, 4, 0x77, 0x14, 0xc1, 0x0b, 0, 1]).unwrap(),
        "target=aux0 s0=0 s1=1 swdio=1 swclk=0 status=0x04 dp_id=0x0bc11477"
    );
    assert_eq!(
        position("aux0", &[]).unwrap_err(),
        "invalid mux-probe response for aux0"
    );
}

#[test]
fn the_network_is_told() {
    assert_eq!(
        network(&[1, 192, 0, 2, 7, 5, b'b', b'e', b'n', b'c', b'h']).unwrap(),
        "connected ssid=bench ip=192.0.2.7"
    );
    assert_eq!(network(&[0, 0, 0, 0, 0, 0]).unwrap(), "no network configured");
    assert_eq!(
        network(&[0, 0, 0, 0, 0, 9, b'x']).unwrap(),
        "configured ssid=x but not connected"
    );
    assert_eq!(
        network(&[0, 0, 0, 0, 0, 1, 0xff]).unwrap(),
        "configured ssid=<invalid utf-8> but not connected"
    );
    assert_eq!(network(&[0]).unwrap_err(), "invalid wifi-status response");
    assert_eq!(network_request("a", "bc").unwrap(), [1, 2, b'a', b'b', b'c']);
    assert!(network_request(&"s".repeat(33), "").is_none());
    assert!(network_request("s", &"p".repeat(65)).is_none());
}

#[test]
fn a_test_of_the_wire_is_told_bit_by_bit() {
    assert_eq!(wire_request(WireTest::Whole), [0]);
    assert_eq!(wire_request(WireTest::Split), [1]);
    let handover = WireTest::Handover { after_read: 2, before_write: 1 };
    assert_eq!(wire_request(handover), [2, 2, 1]);
    let mut reply = vec![0u8; 16];
    reply[..8].copy_from_slice(&0x0004_0201u64.to_le_bytes());
    reply[8..].copy_from_slice(&0xa000_0080u64.to_le_bytes());
    assert_eq!(
        wire(handover, &reply).unwrap(),
        ["after_read=2 before_write=1 acks=001,010,100 ctrl_stat=0xa0000080 wdata_err=1"]
    );
    let split = wire(WireTest::Split, &reply).unwrap();
    assert_eq!(split.len(), 9);
    assert_eq!(
        split[0],
        format!("ack_burst=10000000 data_burst={}", "0000000100000000000000000000010100000000")
    );
    assert_eq!(split[1], "offset=0 ack=001 word=0xa0000080");
    assert_eq!(split[8], "offset=7 ack=100 word=0x01400001");
    let whole = wire(WireTest::Whole, &reply).unwrap();
    assert!(whole[0].starts_with("sampled_first_to_last=1000000001"));
    assert_eq!(whole[2], "offset=1 ack=000 word=0x00004020");
    assert_eq!(
        wire(WireTest::Whole, &[0]).unwrap_err(),
        "invalid wire-probe response"
    );
}

#[test]
fn a_write_probe_is_told() {
    assert_eq!(write_probe_request(0x1234_5678, None, Some(1)), [0x78, 0x56, 0x34, 0x12]);
    assert_eq!(
        write_probe_request(0x1234_5678, Some(2), Some(1)),
        [0x78, 0x56, 0x34, 0x12, 2, 1]
    );
    assert_eq!(
        write_probe(0x2300_0052, &[1, 4, 0x52, 0, 0, 0x23, 0xa0, 0, 0, 0xf0]).unwrap(),
        "wrote=0x23000052 read_back=0x23000052 write_ack=FAULT ctrl_stat=0xf00000a0 wdata_err=1 \
         sticky_err=1 dpidr_ack=OK"
    );
    assert_eq!(
        write_probe(0, &[1]).unwrap_err(),
        "invalid ap-write-probe response"
    );
    assert_eq!(
        write_probe(0, &[1, 1, 0]).unwrap_err(),
        "invalid ap-write-probe status fields"
    );
}

#[test]
fn a_loopback_is_compared() {
    assert_eq!(loopback_request(4, 0x15), [4, 0x15, 0, 0, 0, 0, 0, 0, 0]);
    assert_eq!(
        loopback(4, 0x15, &[0x05, 0, 0, 0, 0, 0, 0, 0]).unwrap(),
        ["sent     =1010", "observed =1010", "match=yes"]
    );
    assert_eq!(
        loopback(8, 0x15, &[0x05, 0, 0, 0, 0, 0, 0, 0]).unwrap()[2],
        "match=no differing_bits=0x10"
    );
    assert_eq!(loopback(8, 0, &[1]).unwrap_err(), "invalid loopback response");
}

#[test]
fn sticky_errors_are_lined_up() {
    assert_eq!(
        sticky("after power-up", 0xf000_00a2),
        "after power-up         ctrl_stat=0xf00000a2 sticky_err=1 wdata_err=1 sticky_orun=1"
    );
    assert!(sticky("a step with a very long name", 0)
        .starts_with("a step with a very long name ctrl_stat=0x00000000"));
}

#[test]
fn words_are_told_at_their_addresses() {
    assert_eq!(
        words_at(0x2000_0000, &vec![1, 0xdead_beef]),
        ["0x20000000 0x00000001", "0x20000004 0xdeadbeef"]
    );
    assert_eq!(words_at(0x1_2345_6789, &vec![0]), ["0x123456789 0x00000000"]);
    let (told, taken) = written_at(0x2000_0000, &vec![1, 2], &vec![1, 3]);
    assert!(!taken);
    assert_eq!(
        told,
        [
            "0x20000000 wrote 0x00000001 reads 0x00000001",
            "0x20000004 wrote 0x00000002 reads 0x00000003  MISMATCH"
        ]
    );
    assert!(written_at(0, &vec![5], &vec![5]).1);
}

#[test]
fn the_last_word_of_the_address_space_is_told() {
    let last = u64::MAX - 3;
    assert_eq!(
        words_at(last - 4, &vec![7, 8]),
        ["0xfffffffffffffff8 0x00000007", "0xfffffffffffffffc 0x00000008"]
    );
    assert_eq!(words_at(u64::MAX, &vec![]).len(), 0);
    let (told, taken) = written_at(last, &vec![9], &vec![9]);
    assert!(taken);
    assert_eq!(told, ["0xfffffffffffffffc wrote 0x00000009 reads 0x00000009"]);
}
