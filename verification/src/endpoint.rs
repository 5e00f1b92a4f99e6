//! Which bridge a name means: a network endpoint, or a serial device.
//!
//! Which link is used is decided by the selector's serial-number field: an
//! `address:port` is a network bridge, anything else is a serial device. That
//! keeps a probe's name meaning one thing whether the bridge is on the bench or
//! across the room.

use crate::text;
use crate::transport::BRIDGE_TCP_PORT;
use vstd::prelude::*;

verus! {

/// The ESP32-C3's USB Serial/JTAG controller, which is fixed in silicon.
pub const ESPRESSIF_VID: u16 = 0x303a;

pub const USB_SERIAL_JTAG_PID: u16 = 0x1001;

/// Is this a Windows serial port, `COM1`, `COM2`, and so on?
pub open spec fn is_com_port(name: Seq<char>) -> bool {
    &&& name.len() > 3
    &&& name.take(3) == seq!['C', 'O', 'M'] || name.take(3) == seq!['c', 'o', 'm']
    &&& forall|i: int| 3 <= i < name.len() ==> text::is_digit(name[i])
}

/// Is this a number that a port can have?
pub open spec fn is_port(port: Seq<char>) -> bool {
    text::are_digits(text::unsigned(port)) && text::decimal_value(text::unsigned(port)) <= u16::MAX
}

/// Is the only colon at `at`, behind a host?
pub open spec fn host_ends_at(name: Seq<char>, at: int) -> bool {
    &&& 0 < at < name.len()
    &&& name[at] == ':'
    &&& forall|i: int| 0 <= i < name.len() && i != at ==> name[i] != ':'
}

/// Is this a host and a port? A bracketless IPv6 address is not accepted: it is
/// ambiguous with this form.
pub open spec fn is_host_and_port(name: Seq<char>) -> bool {
    exists|at: int| #[trigger] host_ends_at(name, at) && is_port(name.skip(at + 1))
}

/// The endpoint that a name means, `None` for a serial device. A name may be a
/// socket address in a form that only the network library knows, such as
/// `[::1]:3333`.
pub open spec fn endpoint_of(name: Seq<char>, is_socket_address: bool) -> Option<Seq<char>> {
    if name.len() == 0 || !text::free_of(name, '/') || !text::free_of(name, '\\') || is_com_port(
        name,
    ) {
        None
    } else if is_socket_address || is_host_and_port(name) {
        Some(name)
    } else if !text::free_of(name, '.') {
        Some(name + ":3333"@)
    } else {
        None
    }
}

/// Windows names its serial ports `COM1`, `COM2`, and so on.
///
/// These are the one device name with no path separator in it, which is what
/// every other rule here leans on. Without this, `COM3` reads as a host and
/// the bridge that was just enumerated cannot be opened.
pub fn is_windows_com_port(name: &str) -> (yes: bool)
    ensures
        yes == is_com_port(name@),
{
    let chars: Vec<char> = text::chars_of(name);
    let len: usize = chars.len();
    if len <= 3 {
        return false;
    }
    let upper: bool = chars[0] == 'C' && chars[1] == 'O' && chars[2] == 'M';
    let lower: bool = chars[0] == 'c' && chars[1] == 'o' && chars[2] == 'm';
    proof {
        let head = name@.take(3);
        assert(upper == (head == seq!['C', 'O', 'M'])) by {
            if upper {
                assert(head =~= seq!['C', 'O', 'M']);
            }
        }
        assert(lower == (head == seq!['c', 'o', 'm'])) by {
            if lower {
                assert(head =~= seq!['c', 'o', 'm']);
            }
        }
    }
    if !upper && !lower {
        return false;
    }
    let end: usize = text::skip_digits(chars.as_slice(), 3);
    proof {
        if end < len {
            lemma_digits_end(chars@.skip(3));
            assert(!text::is_digit(chars@[end as int])) by {
                assert(chars@.skip(3)[end - 3] == chars@[end as int]);
            }
        }
    }
    end == len
}

/// The character after the leading digits is no digit.
proof fn lemma_digits_end(chars: Seq<char>)
    ensures
        text::digits_len(chars) <= chars.len(),
        text::digits_len(chars) < chars.len() ==> !text::is_digit(
            chars[text::digits_len(chars) as int],
        ),
    decreases chars.len(),
{
    if chars.len() > 0 && text::is_digit(chars[0]) {
        lemma_digits_end(chars.skip(1));
    }
}

fn names_a_port(chars: &[char], from: usize) -> (yes: bool)
    requires
        from <= chars@.len(),
    ensures
        yes == is_port(chars@.skip(from as int)),
{
    let len: usize = chars.len();
    let signed: bool = from < len && chars[from] == '+';
    let start: usize = if signed {
        from + 1
    } else {
        from
    };
    let ghost port = chars@.skip(from as int);
    let ghost digits = chars@.skip(start as int);
    proof {
        if signed {
            assert(port.skip(1) =~= digits);
        }
        assert(digits == text::unsigned(port));
        lemma_digits_end(digits);
    }
    if start == len {
        return false;
    }
    let end: usize = text::skip_digits(chars, start);
    if end != len {
        assert(!text::is_digit(digits[end - start]));
        return false;
    }
    assert(chars@.subrange(start as int, len as int) =~= digits);
    assert forall|i: int| 0 <= i < digits.len() implies text::is_digit(digits[i]) by {
        assert(digits[i] == chars@[start + i]);
    }
    text::read_decimal(chars, start, len, u16::MAX as u64).is_some()
}

fn names_host_and_port(chars: &[char]) -> (yes: bool)
    ensures
        yes == is_host_and_port(chars@),
{
    let len: usize = chars.len();
    let mut at: usize = 0;
    while at < len && chars[at] != ':'
        invariant
            at <= len,
            len == chars@.len(),
            forall|i: int| 0 <= i < at ==> chars@[i] != ':',
        decreases len - at,
    {
        at += 1;
    }
    if at == len || at == 0 {
        assert forall|k: int| !#[trigger] host_ends_at(chars@, k) by {}
        return false;
    }
    let mut later: usize = at + 1;
    while later < len && chars[later] != ':'
        invariant
            at < later <= len,
            len == chars@.len(),
            forall|i: int| at < i < later ==> chars@[i] != ':',
        decreases len - later,
    {
        later += 1;
    }
    if later < len {
        assert forall|k: int| !#[trigger] host_ends_at(chars@, k) by {
            if host_ends_at(chars@, k) {
                assert(k == at);
            }
        }
        return false;
    }
    let yes: bool = names_a_port(chars, at + 1);
    proof {
        assert(host_ends_at(chars@, at as int));
        if is_host_and_port(chars@) {
            let k = choose|k: int| #[trigger] host_ends_at(chars@, k) && is_port(chars@.skip(k + 1));
            assert(k == at);
        }
    }
    yes
}

/// Parses a selector's serial number as a network endpoint.
///
/// Deliberately conservative: everything not recognised here is opened as a
/// serial device, because misreading a port as a host produces a DNS failure
/// reported as "probe not found", while the reverse is a clear error. A single
/// -label host such as `probe` is therefore not guessed at — write `probe:3333`
/// or `probe.local`.
pub fn network_endpoint(serial: &str, is_socket_address: bool) -> (endpoint: Option<String>)
    ensures
        match endpoint {
            Some(text) => endpoint_of(serial@, is_socket_address) == Some(text@),
            None => endpoint_of(serial@, is_socket_address) is None,
        },
{
    let chars: Vec<char> = text::chars_of(serial);
    if chars.len() == 0 || text::holds(chars.as_slice(), '/') || text::holds(chars.as_slice(), '\\')
        || is_windows_com_port(serial) {
        return None;
    }
    if is_socket_address || names_host_and_port(chars.as_slice()) {
        return Some(serial.to_owned());
    }
    if text::holds(chars.as_slice(), '.') {
        return Some(with_default_port(serial));
    }
    None
}

fn with_default_port(host: &str) -> (address: String)
    ensures
        address@ == host@ + ":3333"@,
{
    let mut address: String = host.to_owned();
    address.push(':');
    text::push_decimal(&mut address, BRIDGE_TCP_PORT as u64);
    proof {
        reveal_strlit(":3333");
        reveal_with_fuel(text::decimal, 5);
        assert(text::decimal(3333) =~= seq!['3', '3', '3', '3']);
        assert(address@ =~= host@ + ":3333"@);
    }
    address
}

/// The address to connect to: a missing port means the bridge's default.
pub fn address_of(endpoint: &str) -> (address: String)
    ensures
        address@ == (if text::free_of(endpoint@, ':') {
            endpoint@ + ":3333"@
        } else {
            endpoint@
        }),
{
    let chars: Vec<char> = text::chars_of(endpoint);
    if text::holds(chars.as_slice(), ':') {
        endpoint.to_owned()
    } else {
        with_default_port(endpoint)
    }
}

/// `str::to_lowercase`: the text with Unicode's lower-case mapping applied.
pub uninterp spec fn lowercase_of(text: Seq<char>) -> Seq<char>;

/// `str::to_lowercase` maps every character of the text to lower case, as
/// Unicode does.
#[verifier::external_body]
fn lowercase(name: &str) -> (lower: String)
    ensures
        lower@ == lowercase_of(name@),
{
    name.to_lowercase()
}

/// Does a lower-case product string name the USB Serial/JTAG controller?
///
/// Filtering on it is what keeps this driver from claiming every Espressif
/// device on the bus — an ESP32 being *debugged* presents the same identifiers
/// as one acting as the bridge, and only the interface differs.
pub fn is_bridge_product(lower: &str) -> (yes: bool)
    ensures
        yes == text::contains(lower@, "usb jtag/serial debug unit"@),
{
    let chars: Vec<char> = text::chars_of(lower);
    let marker: Vec<char> = text::chars_of("usb jtag/serial debug unit");
    text::found_in(chars.as_slice(), marker.as_slice())
}

/// Is a serial port offered as a bridge?
pub open spec fn offered(
    macos: bool,
    port_name: Seq<char>,
    is_usb: bool,
    product: Option<Seq<char>>,
    accept_any: bool,
) -> bool {
    &&& macos ==> text::contains(port_name, "/cu."@)
    &&& is_usb
    &&& accept_any || (product is Some && text::contains(
        lowercase_of(product->0),
        "usb jtag/serial debug unit"@,
    ))
}

/// Is a serial port offered as a bridge? macOS exposes each port twice, and
/// only the callout device is kept; other links than USB never are.
pub fn is_offered(
    macos: bool,
    port_name: &str,
    is_usb: bool,
    product: Option<&str>,
    accept_any: bool,
) -> (yes: bool)
    ensures
        yes == offered(
            macos,
            port_name@,
            is_usb,
            match product {
                Some(text) => Some(text@),
                None => None,
            },
            accept_any,
        ),
{
    if macos {
        let chars: Vec<char> = text::chars_of(port_name);
        let callout: Vec<char> = text::chars_of("/cu.");
        if !text::found_in(chars.as_slice(), callout.as_slice()) {
            return false;
        }
    }
    if !is_usb {
        return false;
    }
    if accept_any {
        return true;
    }
    match product {
        Some(product) => is_bridge_product(lowercase(product).as_str()),
        None => false,
    }
}

/// Is this the stable name of a bridge's serial device?
pub open spec fn names_bridge(name: Seq<char>) -> bool {
    &&& text::contains(name, "Espressif_USB_JTAG_serial_debug_unit"@)
    &&& name.len() >= 5
    &&& name.skip(name.len() - 5) == "-if00"@
}

/// How many of the first `count` names are bridges.
pub open spec fn bridges(names: Seq<String>, count: nat) -> nat
    decreases count,
{
    if count == 0 {
        0
    } else {
        bridges(names, (count - 1) as nat) + (if names_bridge(names[count - 1]@) {
            1nat
        } else {
            0
        })
    }
}

/// Which device is the bridge.
#[derive(Clone, Copy, Debug, Eq, PartialEq, Structural)]
pub enum Discovery {
    /// The name at this place is the only bridge.
    Only(usize),
    Nothing,
    /// This many are attached, and none is preferred.
    Several(usize),
}

/// Is this the stable name of a bridge's serial device?
pub fn is_bridge_name(name: &str) -> (yes: bool)
    ensures
        yes == names_bridge(name@),
{
    let chars: Vec<char> = text::chars_of(name);
    let marker: Vec<char> = text::chars_of("Espressif_USB_JTAG_serial_debug_unit");
    let suffix: Vec<char> = text::chars_of("-if00");
    proof {
        reveal_strlit("-if00");
    }
    if chars.len() < 5 {
        return false;
    }
    assert(chars@.subrange(chars@.len() - 5, chars@.len() as int) =~= chars@.skip(
        chars@.len() - 5,
    ));
    text::found_in(chars.as_slice(), marker.as_slice()) && text::stands_at(
        chars.as_slice(),
        suffix.as_slice(),
        chars.len() - 5,
    )
}

/// Finds the attached bridge without pinning its MAC address, so a replacement
/// board does not need a rebuild.
pub fn choose_bridge(names: &Vec<String>) -> (found: Discovery)
    ensures
        match found {
            Discovery::Only(at) => bridges(names@, names@.len()) == 1 && at < names@.len()
                && names_bridge(names@[at as int]@),
            Discovery::Nothing => bridges(names@, names@.len()) == 0,
            Discovery::Several(count) => count >= 2 && count == bridges(names@, names@.len()),
        },
{
    let mut count: usize = 0;
    let mut last: usize = 0;
    let mut at: usize = 0;
    while at < names.len()
        invariant
            at <= names@.len(),
            count <= at,
            count == bridges(names@, at as nat),
            count > 0 ==> last < at && names_bridge(names@[last as int]@),
        decreases names@.len() - at,
    {
        if is_bridge_name(names[at].as_str()) {
            count += 1;
            last = at;
        }
        at += 1;
    }
    if count == 0 {
        Discovery::Nothing
    } else if count == 1 {
        Discovery::Only(last)
    } else {
        Discovery::Several(count)
    }
}

/// A name with a path separator in it is never taken for a network bridge, on
/// any platform.
pub proof fn law_a_device_path_is_never_a_host(name: Seq<char>, is_socket_address: bool)
    requires
        !text::free_of(name, '/') || !text::free_of(name, '\\') || is_com_port(name),
    ensures
        endpoint_of(name, is_socket_address) is None,
{
}

/// A host with a port means the same endpoint whether or not it is a socket
/// address too.
pub proof fn law_a_host_and_port_is_an_endpoint_either_way(name: Seq<char>)
    requires
        is_host_and_port(name),
    ensures
        endpoint_of(name, true) == endpoint_of(name, false),
{
}

/// A name that is recognised as an endpoint is recognised again as the same
/// endpoint once its port was filled in, whether or not that made it a socket
/// address.
pub proof fn law_a_filled_in_endpoint_is_itself(name: Seq<char>, is_socket_address: bool)
    requires
        endpoint_of(name, false) is Some,
        text::free_of(name, ':'),
    ensures
        endpoint_of(endpoint_of(name, false)->0, is_socket_address) == endpoint_of(name, false),
{
    reveal_strlit(":3333");
    let full = name + ":3333"@;
    assert(endpoint_of(name, false) == Some(full)) by {
        if is_host_and_port(name) {
            let at = choose|at: int| #[trigger] host_ends_at(name, at) && is_port(name.skip(at + 1));
            assert(name[at] == ':');
        }
    }
    let at = name.len() as int;
    assert(host_ends_at(full, at)) by {
        assert forall|i: int| 0 <= i < full.len() && i != at implies full[i] != ':' by {
            if i < at {
                assert(full[i] == name[i]);
            }
        }
    }
    let port = full.skip(at + 1);
    assert(port =~= seq!['3', '3', '3', '3']);
    reveal_with_fuel(text::decimal_value, 5);
    assert(port.drop_last() =~= seq!['3', '3', '3']);
    assert(port.drop_last().drop_last() =~= seq!['3', '3']);
    assert(port.drop_last().drop_last().drop_last() =~= seq!['3']);
    assert(text::decimal_value(port) == 3333);
    assert(is_port(port));
    assert(text::free_of(full, '/')) by {
        assert forall|i: int| 0 <= i < full.len() implies full[i] != '/' by {
            if i < at {
                assert(full[i] == name[i]);
            }
        }
    }
    assert(text::free_of(full, '\\')) by {
        assert forall|i: int| 0 <= i < full.len() implies full[i] != '\\' by {
            if i < at {
                assert(full[i] == name[i]);
            }
        }
    }
    assert(!is_com_port(full)) by {
        if is_com_port(full) {
            if at >= 3 {
                assert(text::is_digit(full[at]));
            } else {
                assert(full.take(3)[at] == ':');
            }
        }
    }
}

/// A dotted name without a port is a host on the bridge's port, 3333; a name
/// without a dot and without a port is a device, as is one that starts with COM
/// and goes on with digits.
pub proof fn law_a_dotted_name_is_a_host(name: Seq<char>, number: Seq<char>)
    requires
        name.len() > 0,
        text::free_of(name, ':'),
        text::free_of(name, '/'),
        text::free_of(name, '\\'),
        number.len() > 0,
        forall|i: int| 0 <= i < number.len() ==> '0' <= #[trigger] number[i] <= '9',
    ensures
        name.contains('.') ==> endpoint_of(name, false) == Some(name + ":3333"@),
        !name.contains('.') ==> endpoint_of(name, false) is None,
        endpoint_of(seq!['C', 'O', 'M'] + number, true) is None,
        endpoint_of(seq!['c', 'o', 'm'] + number, true) is None,
{
    assert(!is_host_and_port(name)) by {
        if is_host_and_port(name) {
            let at = choose|at: int| #[trigger] host_ends_at(name, at) && is_port(name.skip(at + 1));
            assert(name[at] == ':');
        }
    }
    if name.contains('.') {
        let dot = choose|i: int| 0 <= i < name.len() && name[i] == '.';
        assert(!text::free_of(name, '.'));
        if is_com_port(name) {
            if dot < 3 {
                assert(name.take(3)[dot] == '.');
            } else {
                assert(text::is_digit(name[dot]));
            }
        }
    }
    let upper = seq!['C', 'O', 'M'] + number;
    let lower = seq!['c', 'o', 'm'] + number;
    assert(upper.take(3) =~= seq!['C', 'O', 'M']);
    assert(lower.take(3) =~= seq!['c', 'o', 'm']);
    assert forall|i: int| 3 <= i < upper.len() implies text::is_digit(upper[i]) && text::is_digit(
        lower[i],
    ) by {
        assert(upper[i] == number[i - 3] && lower[i] == number[i - 3]);
    }
}

/// A bridge that is the only one is told from every other name, and two of them
/// are never taken for one.
pub proof fn law_the_only_bridge_is_alone(names: Seq<String>, at: int, other: int)
    requires
        0 <= at < names.len(),
        0 <= other < names.len(),
        at != other,
        names_bridge(names[at]@),
    ensures
        bridges(names, names.len()) >= 1,
        names_bridge(names[other]@) ==> bridges(names, names.len()) >= 2,
{
    lemma_bridges_among(names, names.len(), at, other);
}

proof fn lemma_bridges_among(names: Seq<String>, count: nat, at: int, other: int)
    requires
        0 <= at < names.len(),
        0 <= other < names.len(),
        at != other,
        count <= names.len(),
    ensures
        at < count && names_bridge(names[at]@) ==> bridges(names, count) >= 1,
        other < count && names_bridge(names[other]@) ==> bridges(names, count) >= 1,
        at < count && other < count && names_bridge(names[at]@) && names_bridge(names[other]@)
            ==> bridges(names, count) >= 2,
    decreases count,
{
    if count > 0 {
        lemma_bridges_among(names, (count - 1) as nat, at, other);
    }
}

} // verus!
