use esprobe::endpoint::{
    address_of, choose_bridge, is_bridge_name, is_bridge_product, is_offered, is_windows_com_port,
    network_endpoint, Discovery,
};

#[test]
fn socket_addresses_are_network_bridges() {
    assert_eq!(
        network_endpoint("192.0.2.10:3333", true).as_deref(),
        Some("192.0.2.10:3333")
    );
    assert_eq!(
        network_endpoint("192.0.2.10:3333", false).as_deref(),
        Some("192.0.2.10:3333")
    );
}

#[test]
fn a_bare_address_gets_the_default_port() {
    assert_eq!(
        network_endpoint("192.0.2.10", false).as_deref(),
        Some("192.0.2.10:3333")
    );
}

#[test]
fn serial_device_paths_are_not_network_bridges() {
    assert_eq!(network_endpoint("/dev/ttyACM0", false), None);
    assert_eq!(network_endpoint("/dev/serial/by-id/usb-Espressif", false), None);
    assert_eq!(network_endpoint(r"COM3\", false), None);
}

#[test]
fn windows_serial_ports_are_not_hosts() {
    // Listing puts the port name in the selector, and on Windows that is a bare
    // `COM3`. Reading it as a host made every probe enumerated there impossible
    // to open.
    for name in ["COM1", "COM3", "COM12", "com3", r"\\.\COM12"] {
        assert_eq!(network_endpoint(name, false), None, "{name} read as a host");
    }
}

#[test]
fn qualified_hosts_and_explicit_ports_are_network_bridges() {
    assert_eq!(
        network_endpoint("probe.local", false).as_deref(),
        Some("probe.local:3333")
    );
    assert_eq!(
        network_endpoint("probe.local:4444", false).as_deref(),
        Some("probe.local:4444")
    );
    assert_eq!(
        network_endpoint("bench:3333", false).as_deref(),
        Some("bench:3333")
    );
    assert_eq!(
        network_endpoint("[::1]:3333", true).as_deref(),
        Some("[::1]:3333")
    );
}

#[test]
fn a_word_that_could_be_a_device_is_left_alone() {
    // Nothing distinguishes a single-label host from a device name, so this errs
    // towards serial and the docs say to qualify it.
    assert_eq!(network_endpoint("probe", false), None);
    assert_eq!(network_endpoint("", false), None);
    // A port that is not a port does not make a host.
    assert_eq!(network_endpoint("ttyACM0:notaport", false), None);
}

#[test]
fn a_port_has_to_fit_sixteen_bits() {
    assert_eq!(network_endpoint("bench:65535", false).as_deref(), Some("bench:65535"));
    assert_eq!(network_endpoint("bench:65536", false), None);
    assert_eq!(network_endpoint("bench:+80", false).as_deref(), Some("bench:+80"));
    assert_eq!(network_endpoint("bench:", false), None);
    assert_eq!(network_endpoint("bench:+", false), None);
    assert_eq!(network_endpoint(":3333", false), None);
    // A bracketless address of many colons is ambiguous with a host and a port.
    assert_eq!(network_endpoint("fe80::1:3333", false), None);
}

#[test]
fn a_filled_in_endpoint_is_recognised_again() {
    let full = network_endpoint("probe.local", false).unwrap();
    assert_eq!(network_endpoint(&full, false).as_deref(), Some(full.as_str()));
    let full = network_endpoint("192.0.2.10", false).unwrap();
    for is_socket_address in [false, true] {
        assert_eq!(
            network_endpoint(&full, is_socket_address).as_deref(),
            Some("192.0.2.10:3333")
        );
    }
}

#[test]
fn a_missing_port_is_filled_in_when_connecting() {
    assert_eq!(address_of("probe"), "probe:3333");
    assert_eq!(address_of("probe:80"), "probe:80");
}

#[test]
fn only_whole_com_names_are_ports() {
    assert!(is_windows_com_port("COM7"));
    assert!(!is_windows_com_port("COM"));
    assert!(!is_windows_com_port("Com7"));
    assert!(!is_windows_com_port("COM7x"));
    assert!(!is_windows_com_port("COM٣"));
}

#[test]
fn the_product_string_is_matched_in_any_case() {
    assert!(is_bridge_product("usb jtag/serial debug unit"));
    assert!(!is_bridge_product("USB JTAG/serial debug unit"));
    assert!(is_offered(
        false,
        "/dev/ttyACM0",
        true,
        Some("USB JTAG/serial debug unit"),
        false
    ));
    assert!(!is_offered(false, "/dev/ttyACM0", true, Some("CP2102"), false));
    assert!(!is_offered(false, "/dev/ttyACM0", true, None, false));
    assert!(is_offered(false, "/dev/ttyACM0", true, None, true));
    assert!(!is_offered(false, "/dev/ttyS0", false, None, true));
}

#[test]
fn macos_offers_the_callout_device_only() {
    let product = Some("USB JTAG/serial debug unit");
    assert!(is_offered(true, "/dev/cu.usbmodem1", true, product, false));
    assert!(!is_offered(true, "/dev/tty.usbmodem1", true, product, false));
}

#[test]
fn exactly_one_attached_bridge_is_chosen() {
    let bridge = "usb-Espressif_USB_JTAG_serial_debug_unit_58:CF-if00".to_string();
    assert!(is_bridge_name(&bridge));
    assert!(!is_bridge_name("usb-Espressif_USB_JTAG_serial_debug_unit_58:CF-if01"));
    assert_eq!(choose_bridge(&vec![]), Discovery::Nothing);
    assert_eq!(
        choose_bridge(&vec!["usb-FTDI-if00".to_string()]),
        Discovery::Nothing
    );
    assert_eq!(
        choose_bridge(&vec!["usb-FTDI-if00".to_string(), bridge.clone()]),
        Discovery::Only(1)
    );
    assert_eq!(choose_bridge(&vec![bridge.clone(), bridge]), Discovery::Several(2));
}
