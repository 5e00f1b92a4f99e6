//! What the bridge knows about the radio, and what it wants changed.

use crate::wifi;
use vstd::prelude::*;
use vstd::string::*;
use vstd::utf8::*;

verus! {

/// What the bridge knows about the radio, and what it wants changed.
///
/// The radio is owned by the main loop; the bridge only ever leaves a request
/// here and reads back the last published snapshot. Sharing the driver itself
/// would put a Wi-Fi reconnect — seconds of it — inside a command that the host
/// is waiting on.
#[derive(Debug)]
pub struct WifiControl {
    pub pending: Option<(String, String)>,
    pub forget: bool,
    pub connected: bool,
    pub ip: [u8; 4],
    pub ssid: String,
}

/// Is the network's name one that a network can have?
pub open spec fn well_formed(control: WifiControl) -> bool {
    encode_utf8(control.ssid@).len() <= wifi::MAX_SSID
}

/// The network that is to be joined, if one was asked for.
pub open spec fn pending_network(control: WifiControl) -> Option<(Seq<char>, Seq<char>)> {
    match control.pending {
        Some((ssid, password)) => Some((ssid@, password@)),
        None => None,
    }
}

/// What the host is told: whether there is a network, the address on it, and
/// its name.
pub open spec fn status(control: WifiControl) -> Seq<u8> {
    let name = encode_utf8(control.ssid@);
    seq![
        if control.connected {
            1u8
        } else {
            0u8
        },
    ] + control.ip@ + seq![name.len() as u8] + name
}

impl WifiControl {
    /// Nothing known and nothing asked for.
    pub fn new() -> (control: WifiControl)
        ensures
            well_formed(control),
            control.pending is None,
            !control.forget,
            !control.connected,
            control.ip@ == seq![0u8, 0, 0, 0],
            control.ssid@.len() == 0,
    {
        let ip: [u8; 4] = [0, 0, 0, 0];
        assert(ip@ =~= seq![0u8, 0, 0, 0]);
        let ssid: String = String::new();
        assert(encode_utf8(ssid@).len() == 0);
        WifiControl { pending: None, forget: false, connected: false, ip, ssid }
    }

    /// What the host is told about the radio.
    pub fn status(&self) -> (reply: Vec<u8>)
        requires
            well_formed(*self),
        ensures
            reply@ == status(*self),
    {
        let mut reply: Vec<u8> = Vec::new();
        reply.push(
            if self.connected {
                1
            } else {
                0
            },
        );
        let mut at: usize = 0;
        while at < 4
            invariant
                at <= 4,
                reply@ == seq![
                    if self.connected {
                        1u8
                    } else {
                        0u8
                    },
                ] + self.ip@.take(at as int),
            decreases 4 - at,
        {
            reply.push(self.ip[at]);
            at += 1;
            assert(self.ip@.take(at as int) =~= self.ip@.take(at - 1).push(self.ip@[at - 1]));
        }
        assert(self.ip@.take(4) =~= self.ip@);
        let name: &[u8] = self.ssid.as_str().as_bytes();
        reply.push(name.len() as u8);
        let ghost head = reply@;
        let mut copied: usize = 0;
        assert(reply@ =~= head + name@.take(0));
        while copied < name.len()
            invariant
                copied <= name@.len(),
                reply@ == head + name@.take(copied as int),
            decreases name@.len() - copied,
        {
            reply.push(name[copied]);
            copied += 1;
            assert(reply@ =~= head + name@.take(copied as int));
        }
        assert(name@.take(copied as int) =~= name@);
        assert(reply@ =~= status(*self));
        reply
    }

    /// Asks for a network that has been stored.
    ///
    /// Its name is published here, not by the main loop: a join blocks that
    /// loop for the better part of half a minute, and for all of it the status
    /// would still say that no network is configured.
    pub fn ask(&mut self, ssid: String, password: String)
        requires
            encode_utf8(ssid@).len() <= wifi::MAX_SSID,
        ensures
            well_formed(*final(self)),
            pending_network(*final(self)) == Some((ssid@, password@)),
            !final(self).forget,
            final(self).connected == old(self).connected,
            final(self).ip == old(self).ip,
            final(self).ssid@ == ssid@,
    {
        let name: String = ssid.as_str().to_owned();
        self.pending = Some((ssid, password));
        self.forget = false;
        self.ssid = name;
    }

    /// Asks for the network to be forgotten.
    pub fn ask_to_forget(&mut self)
        ensures
            well_formed(*final(self)),
            final(self).pending is None,
            final(self).forget,
            !final(self).connected,
            final(self).ip@ == seq![0u8, 0, 0, 0],
            final(self).ssid@.len() == 0,
    {
        let ip: [u8; 4] = [0, 0, 0, 0];
        assert(ip@ =~= seq![0u8, 0, 0, 0]);
        self.pending = None;
        self.forget = true;
        self.ssid = String::new();
        self.connected = false;
        self.ip = ip;
        assert(encode_utf8(self.ssid@).len() == 0);
    }

    /// Takes what was asked for since the last pass.
    pub fn take_requests(&mut self) -> (asked: (Option<(String, String)>, bool))
        ensures
            asked.0 == old(self).pending,
            asked.1 == old(self).forget,
            *final(self) == (WifiControl { pending: None, forget: false, ..*old(self) }),
    {
        let pending: Option<(String, String)> = self.pending.take();
        let forget: bool = self.forget;
        self.forget = false;
        (pending, forget)
    }

    /// Publishes what the host will see: whether the station has a network, its
    /// address, and the name it was told to join.
    pub fn publish(&mut self, connected: bool, ip: [u8; 4], ssid: String)
        requires
            encode_utf8(ssid@).len() <= wifi::MAX_SSID,
        ensures
            *final(self) == (WifiControl { connected, ip, ssid, ..*old(self) }),
            well_formed(*final(self)),
    {
        self.connected = connected;
        self.ip = ip;
        self.ssid = ssid;
    }
}

} // verus!
