//! How the probe gets onto a network and stays there.
//!
//! The radio is worked by the board's main loop. Every pass of that loop is
//! decided here, one [`RadioAction`] at a time: [`RadioLoop::start`] begins a
//! pass with what the host asked for since the last one, and
//! [`RadioLoop::next`] goes on with it until there is only the state left to
//! report.

use crate::text;
use vstd::prelude::*;

verus! {

/// Passes to hold the access point open after a failed ladder, at two seconds a
/// pass.
pub const AP_FALLBACK_PASSES: usize = 15;

/// Transmit powers to try, in quarter-dBm, strongest first.
///
/// Full power is not always the best power. The ESP32-C3 SuperMini's antenna is
/// badly matched, and a mismatched antenna reflects the power amplifier's
/// output back into it; backing the drive off can put a cleaner signal on the
/// air than driving it flat out. Since which level wins depends on the board,
/// the join tries them in turn rather than assuming.
pub const TX_POWER_LADDER: [i8; 5] = [80, 60, 52, 40, 32];

/// The ladder's length.
pub const RUNGS: usize = 5;

/// Transmit powers that a check of the radio alone steps through. If nothing is
/// heard at full power but beacons appear at a low one, the power amplifier is
/// browning out its supply rather than radiating into a broken antenna.
pub const TX_POWER_STEPS: [i8; 5] = [80, 52, 32, 20, 8];

/// Quarter-dBm bounds that the driver accepts.
pub const MIN_TX_POWER: i8 = 8;

pub const MAX_TX_POWER: i8 = 84;

/// A transmit power that was stored, where it is one.
///
/// Range-checked on the way out: a stale byte left behind by another build
/// reads as anything at all, and an out-of-range request is rejected by the
/// driver, quietly wasting the one attempt that was supposed to be the fast
/// path.
pub fn stored_tx_power(stored: u8) -> (power: Option<i8>)
    ensures
        power == (if MIN_TX_POWER <= stored <= MAX_TX_POWER {
            Some(stored as i8)
        } else {
            None
        }),
{
    if stored >= MIN_TX_POWER as u8 && stored <= MAX_TX_POWER as u8 {
        Some(stored as i8)
    } else {
        None
    }
}

/// Which power to try on this attempt.
///
/// The level that worked last time goes first, so a probe that has already
/// found its board's sweet spot joins immediately instead of spending a minute
/// walking back down the ladder on every boot.
pub fn tx_power_for(attempt: usize, remembered: Option<i8>) -> (power: i8)
    ensures
        power == (match remembered {
            Some(power) if attempt == 0 => power,
            _ => TX_POWER_LADDER@[attempt as int % 5],
        }),
{
    match remembered {
        Some(power) if attempt == 0 => power,
        _ => {
            let ladder: [i8; 5] = TX_POWER_LADDER;
            ladder[attempt % RUNGS]
        },
    }
}

/// The power that a check of the radio alone transmits at, step by step, over
/// and over.
pub fn sweep_power(step: usize) -> (power: i8)
    ensures
        power == TX_POWER_STEPS@[step as int % 5],
{
    let steps: [i8; 5] = TX_POWER_STEPS;
    steps[step % RUNGS]
}

/// An access point that answered a scan.
#[derive(Debug)]
pub struct AccessPoint {
    pub ssid: String,
    pub bssid: [u8; 6],
    pub channel: u8,
    /// In dBm.
    pub signal_strength: i8,
}

/// Does an access point answer to the name, where one is asked for?
pub open spec fn answers(point: AccessPoint, ssid: Option<&str>) -> bool {
    match ssid {
        Some(name) => point.ssid@ == name@,
        None => true,
    }
}

/// Is this the strongest that answers to the name, and the last of those that
/// are as strong?
pub open spec fn is_strongest(points: Seq<AccessPoint>, ssid: Option<&str>, at: int) -> bool {
    &&& 0 <= at < points.len()
    &&& answers(points[at], ssid)
    &&& forall|i: int|
        0 <= i < points.len() && answers(#[trigger] points[i], ssid) ==> if i <= at {
            points[i].signal_strength <= points[at].signal_strength
        } else {
            points[i].signal_strength < points[at].signal_strength
        }
}

/// Picks the access point to associate with, rather than letting the driver
/// choose.
///
/// On a mesh publishing one name from several nodes, a driver left alone keeps
/// authenticating against a node at -80 dBm while another answering to the same
/// name sits at -60. Twenty decibels is the difference between a link that
/// closes and one that times out, and a timeout at that stage is
/// indistinguishable from a wrong password.
pub fn strongest(points: &Vec<AccessPoint>, ssid: Option<&str>) -> (best: Option<usize>)
    ensures
        match best {
            Some(at) => is_strongest(points@, ssid, at as int),
            None => forall|i: int|
                0 <= i < points@.len() ==> !answers(#[trigger] points@[i], ssid),
        },
{
    let mut best: Option<usize> = None;
    let mut at: usize = 0;
    while at < points.len()
        invariant
            at <= points@.len(),
            match best {
                Some(best) => best < at && is_strongest(points@.take(at as int), ssid, best as int),
                None => forall|i: int| 0 <= i < at ==> !answers(#[trigger] points@[i], ssid),
            },
        decreases points@.len() - at,
    {
        let named: bool = match ssid {
            Some(name) => text::same(points[at].ssid.as_str(), name),
            None => true,
        };
        let ghost before = points@.take(at as int);
        let ghost after = points@.take(at + 1);
        assert(forall|i: int| 0 <= i < at ==> before[i] == after[i]);
        if named {
            let stronger: bool = match best {
                Some(best) => points[at].signal_strength >= points[best].signal_strength,
                None => true,
            };
            if stronger {
                proof {
                    if let Some(old_best) = best {
                        assert(before[old_best as int] == points@[old_best as int]);
                    }
                    assert forall|i: int|
                        0 <= i < after.len() && answers(#[trigger] after[i], ssid) implies if i
                        <= at {
                        after[i].signal_strength <= after[at as int].signal_strength
                    } else {
                        after[i].signal_strength < after[at as int].signal_strength
                    } by {
                        if i < at {
                            assert(before[i] == after[i]);
                            assert(answers(points@[i], ssid));
                        }
                    }
                }
                best = Some(at);
            } else {
                proof {
                    if let Some(old_best) = best {
                        assert(before[old_best as int] == points@[old_best as int]);
                        assert forall|i: int|
                            0 <= i < after.len() && answers(
                                #[trigger] after[i],
                                ssid,
                            ) implies if i <= old_best {
                            after[i].signal_strength <= after[old_best as int].signal_strength
                        } else {
                            after[i].signal_strength < after[old_best as int].signal_strength
                        } by {
                            if i < at {
                                assert(before[i] == after[i]);
                            }
                        }
                    }
                }
            }
        } else {
            proof {
                if let Some(old_best) = best {
                    assert(before[old_best as int] == points@[old_best as int]);
                    assert forall|i: int|
                        0 <= i < after.len() && answers(#[trigger] after[i], ssid) implies if i
                        <= old_best {
                        after[i].signal_strength <= after[old_best as int].signal_strength
                    } else {
                        after[i].signal_strength < after[old_best as int].signal_strength
                    } by {
                        if i < at {
                            assert(before[i] == after[i]);
                        }
                    }
                }
            }
        }
        at += 1;
    }
    assert(points@.take(at as int) =~= points@);
    best
}

/// Whether the station half actually has a network.
///
/// Being connected is also true for a running access point, so on its own it
/// reports a probe publishing its own name as connected to something.
pub fn station_online(connected: bool, ip: Option<[u8; 4]>) -> (online: bool)
    ensures
        online == (connected && (ip matches Some(ip) && ip@ != seq![0u8, 0, 0, 0])),
{
    match ip {
        Some(ip) => {
            let named: bool = ip[0] != 0 || ip[1] != 0 || ip[2] != 0 || ip[3] != 0;
            proof {
                if !named {
                    assert(ip@ =~= seq![0u8, 0, 0, 0]);
                }
            }
            connected && named
        },
        None => false,
    }
}

/// The network that what is in storage names. An absent name was never stored
/// and an empty one says that the host had it forgotten: neither is a network.
/// A network without a passphrase is an open one.
pub open spec fn network_in_storage(
    ssid: Option<Seq<char>>,
    password: Option<Seq<char>>,
) -> Option<(Seq<char>, Seq<char>)> {
    match ssid {
        Some(name) => if name.len() == 0 {
            None
        } else {
            Some(
                (
                    name,
                    match password {
                        Some(password) => password,
                        None => Seq::empty(),
                    },
                ),
            )
        },
        None => None,
    }
}

/// The network that a probe has been told to join, from what its storage holds.
/// Storage is the only source: a passphrase that is compiled in ends up in every
/// image, and cannot be forgotten.
pub fn stored_network(ssid: Option<String>, password: Option<String>) -> (network: Option<
    (String, String),
>)
    ensures
        network_of(network) == network_in_storage(
            match ssid {
                Some(ssid) => Some(ssid@),
                None => None,
            },
            match password {
                Some(password) => Some(password@),
                None => None,
            },
        ),
{
    match ssid {
        None => None,
        Some(ssid) => {
            if text::same(ssid.as_str(), "") {
                proof {
                    reveal_strlit("");
                }
                return None;
            }
            proof {
                reveal_strlit("");
                if ssid@.len() == 0 {
                    assert(ssid@ =~= ""@);
                }
            }
            match password {
                Some(password) => Some((ssid, password)),
                None => {
                    let open: String = String::new();
                    assert(open@ =~= Seq::empty());
                    Some((ssid, open))
                },
            }
        },
    }
}

/// What the radio is programmed for.
#[derive(Clone, Copy, Debug, Eq, PartialEq, Structural)]
pub enum Role {
    /// A station of the network it was given.
    Station,
    /// Its own access point.
    AccessPoint,
    /// A station of no network.
    Idle,
}

/// What the radio is programmed for.
///
/// The access point comes up only when there is no network to join, and only
/// when the image was built with one: one radio means the soft access point
/// drags the station onto its channel, and an unconfigured probe should not put
/// an open or default-credentialed network on the air just by being powered on.
pub fn role(has_network: bool, has_access_point: bool) -> (role: Role)
    ensures
        role == (if has_network {
            Role::Station
        } else if has_access_point {
            Role::AccessPoint
        } else {
            Role::Idle
        }),
{
    if has_network {
        Role::Station
    } else if has_access_point {
        Role::AccessPoint
    } else {
        Role::Idle
    }
}

/// What the main loop keeps from one pass to the next.
#[derive(Debug)]
pub struct RadioLoop {
    /// What the radio should be on.
    pub credentials: Option<(String, String)>,
    /// How many joins have failed in a row.
    pub attempt: usize,
    /// How many passes the access point is still to be held open for.
    pub fallback_passes: usize,
}

/// The same, over texts and numbers.
pub struct RadioState {
    pub network: Option<(Seq<char>, Seq<char>)>,
    pub attempt: nat,
    pub passes: nat,
}

/// One thing that only the radio can do.
#[derive(Clone, Copy, Debug, Eq, PartialEq, Structural)]
pub enum RadioAction {
    /// Disconnect and program the radio for no network, whatever comes of it.
    GoBack,
    /// Ask whether the station has a network.
    AskOnline,
    /// Join the network in the credentials.
    Join { attempt: usize },
    /// Program the radio for no network.
    PublishAccessPoint,
    /// Report the state; the pass is over.
    Report,
}

/// What a pass is waiting for.
#[derive(Debug)]
pub enum RadioStage {
    GoneBack { pending: Option<(String, String)> },
    Asked,
    Joining { requested: bool },
    Publishing,
    Reported,
}

/// A network's name and passphrase as texts.
pub open spec fn network_of(network: Option<(String, String)>) -> Option<(Seq<char>, Seq<char>)> {
    match network {
        Some((ssid, password)) => Some((ssid@, password@)),
        None => None,
    }
}

impl View for RadioLoop {
    type V = RadioState;

    open spec fn view(&self) -> RadioState {
        RadioState {
            network: network_of(self.credentials),
            attempt: self.attempt as nat,
            passes: self.fallback_passes as nat,
        }
    }
}

/// A pass, past whatever was to be forgotten.
pub open spec fn begun(
    before: RadioState,
    pending: Option<(Seq<char>, Seq<char>)>,
    after: RadioState,
    action: RadioAction,
    stage: RadioStage,
) -> bool {
    match pending {
        Some(network) => {
            &&& after == (RadioState { network: Some(network), attempt: 0, passes: 0 })
            &&& action == RadioAction::Join { attempt: 0 }
            &&& stage == (RadioStage::Joining { requested: true })
        },
        None => if before.passes > 0 {
            &&& after == (RadioState { passes: (before.passes - 1) as nat, ..before })
            &&& action == RadioAction::Report
            &&& stage == RadioStage::Reported
        } else {
            &&& after == before
            &&& action == RadioAction::AskOnline
            &&& stage == RadioStage::Asked
        },
    }
}

/// What a pass begins with.
pub open spec fn started(
    before: RadioState,
    pending: Option<(Seq<char>, Seq<char>)>,
    forget: bool,
    after: RadioState,
    action: RadioAction,
    stage: RadioStage,
) -> bool {
    if forget {
        &&& after == (RadioState { network: None, ..before })
        &&& action == RadioAction::GoBack
        &&& stage matches RadioStage::GoneBack { pending: kept } && network_of(kept) == pending
    } else {
        begun(before, pending, after, action, stage)
    }
}

/// What a pass goes on with, once the radio has answered: yes, or no.
pub open spec fn went_on(
    before: RadioState,
    stage: RadioStage,
    yes: bool,
    has_access_point: bool,
    after: RadioState,
    action: RadioAction,
    next: RadioStage,
) -> bool {
    match stage {
        RadioStage::GoneBack { pending } => begun(before, network_of(pending), after, action, next),
        RadioStage::Asked => {
            &&& after == before
            &&& if yes || before.network is None {
                action == RadioAction::Report && next == RadioStage::Reported
            } else {
                action == RadioAction::Join { attempt: before.attempt as usize } && next == (
                RadioStage::Joining { requested: false })
            }
        },
        RadioStage::Joining { requested } => {
            let failed = RadioState { attempt: before.attempt + 1, ..before };
            if yes {
                &&& after == (RadioState {
                    attempt: if requested {
                        before.attempt
                    } else {
                        0
                    },
                    ..before
                })
                &&& action == RadioAction::Report
                &&& next == RadioStage::Reported
            } else if !requested && failed.attempt % 5 == 0 && has_access_point {
                &&& after == failed
                &&& action == RadioAction::PublishAccessPoint
                &&& next == RadioStage::Publishing
            } else {
                &&& after == failed
                &&& action == RadioAction::Report
                &&& next == RadioStage::Reported
            }
        },
        RadioStage::Publishing => {
            &&& after == (RadioState {
                passes: if yes {
                    AP_FALLBACK_PASSES as nat
                } else {
                    before.passes
                },
                ..before
            })
            &&& action == RadioAction::Report
            &&& next == RadioStage::Reported
        },
        RadioStage::Reported => after == before && action == RadioAction::Report && next
            == RadioStage::Reported,
    }
}

impl RadioLoop {
    /// A loop that starts with the network in storage.
    pub fn new(credentials: Option<(String, String)>) -> (radio: RadioLoop)
        ensures
            radio@ == (RadioState { network: network_of(credentials), attempt: 0, passes: 0 }),
    {
        RadioLoop { credentials, attempt: 0, fallback_passes: 0 }
    }

    fn begin(&mut self, pending: Option<(String, String)>) -> (next: (RadioAction, RadioStage))
        ensures
            begun(old(self)@, network_of(pending), final(self)@, next.0, next.1),
    {
        if pending.is_some() {
            self.attempt = 0;
            self.fallback_passes = 0;
            self.credentials = pending;
            (RadioAction::Join { attempt: 0 }, RadioStage::Joining { requested: true })
        } else if self.fallback_passes > 0 {
            self.fallback_passes -= 1;
            (RadioAction::Report, RadioStage::Reported)
        } else {
            (RadioAction::AskOnline, RadioStage::Asked)
        }
    }

    /// Begins a pass with what the host asked for since the last one.
    ///
    /// Forgetting goes back to whatever an unprovisioned probe does, which is to
    /// publish its own access point: disconnecting alone would leave the radio
    /// configured for a network it had just been told to forget, and with no way
    /// back in over the air.
    pub fn start(&mut self, pending: Option<(String, String)>, forget: bool) -> (next: (
        RadioAction,
        RadioStage,
    ))
        ensures
            started(old(self)@, network_of(pending), forget, final(self)@, next.0, next.1),
    {
        if forget {
            self.credentials = None;
            return (RadioAction::GoBack, RadioStage::GoneBack { pending });
        }
        self.begin(pending)
    }

    /// Goes on with a pass, once the radio has answered: whether what was asked
    /// for succeeded, or whether the station has a network.
    ///
    /// Each retry moves down the ladder; a success rewinds it, so a link that
    /// drops later retries at the power that worked. After a whole ladder with
    /// nothing to show for it the access point is published for a while, so that
    /// a probe given a wrong passphrase, or carried out of range, has another way
    /// in than the cable.
    pub fn next(&mut self, stage: RadioStage, yes: bool, has_access_point: bool) -> (next: (
        RadioAction,
        RadioStage,
    ))
        requires
            old(self).attempt < usize::MAX,
        ensures
            went_on(
                old(self)@,
                stage,
                yes,
                has_access_point,
                final(self)@,
                next.0,
                next.1,
            ),
    {
        match stage {
            RadioStage::GoneBack { pending } => self.begin(pending),
            RadioStage::Asked => if yes || self.credentials.is_none() {
                (RadioAction::Report, RadioStage::Reported)
            } else {
                (
                    RadioAction::Join { attempt: self.attempt },
                    RadioStage::Joining { requested: false },
                )
            },
            RadioStage::Joining { requested } => {
                if yes {
                    if !requested {
                        self.attempt = 0;
                    }
                    return (RadioAction::Report, RadioStage::Reported);
                }
                self.attempt += 1;
                if !requested && self.attempt % RUNGS == 0 && has_access_point {
                    (RadioAction::PublishAccessPoint, RadioStage::Publishing)
                } else {
                    (RadioAction::Report, RadioStage::Reported)
                }
            },
            RadioStage::Publishing => {
                if yes {
                    self.fallback_passes = AP_FALLBACK_PASSES;
                }
                (RadioAction::Report, RadioStage::Reported)
            },
            RadioStage::Reported => (RadioAction::Report, RadioStage::Reported),
        }
    }

    /// The name of the network that the radio should be on, empty for none.
    pub fn ssid(&self) -> (name: String)
        ensures
            name@ == (match self@.network {
                Some((ssid, _)) => ssid,
                None => Seq::<char>::empty(),
            }),
    {
        match &self.credentials {
            Some((ssid, _)) => ssid.as_str().to_owned(),
            None => String::new(),
        }
    }
}

/// A network that the host gives is joined at once, from the top of the ladder,
/// whatever went before, even if another was to be forgotten in the same pass.
pub proof fn law_a_requested_network_is_joined_at_once(
    before: RadioState,
    network: (Seq<char>, Seq<char>),
    forget: bool,
    middle: RadioState,
    action: RadioAction,
    stage: RadioStage,
    yes: bool,
    has_access_point: bool,
    after: RadioState,
    last_action: RadioAction,
    last: RadioStage,
)
    requires
        started(before, Some(network), forget, middle, action, stage),
        forget ==> went_on(middle, stage, yes, has_access_point, after, last_action, last),
    ensures
        !forget ==> action == (RadioAction::Join { attempt: 0 }) && middle.network == Some(network)
            && middle.passes == 0,
        forget ==> action == RadioAction::GoBack && last_action == (RadioAction::Join { attempt: 0 })
            && after.network == Some(network) && after.passes == 0,
{
}

/// A probe that was told to forget its network, and not given another, has none
/// to join.
pub proof fn law_a_forgotten_network_is_not_joined(
    before: RadioState,
    middle: RadioState,
    action: RadioAction,
    stage: RadioStage,
    yes: bool,
    has_access_point: bool,
    after: RadioState,
    next_action: RadioAction,
    next: RadioStage,
)
    requires
        started(before, None, true, middle, action, stage),
        went_on(middle, stage, yes, has_access_point, after, next_action, next),
    ensures
        after.network is None,
        !(next_action is Join),
{
}

/// A probe that stored that it has no network to join has none after a power
/// cycle either, whatever passphrase is still in storage.
pub proof fn law_a_forgotten_network_stays_forgotten(password: Option<Seq<char>>)
    ensures
        network_in_storage(Some(Seq::empty()), password) is None,
{
}

/// A network that was stored is the one that is loaded.
pub proof fn law_a_stored_network_is_loaded(ssid: Seq<char>, password: Seq<char>)
    requires
        ssid.len() > 0,
    ensures
        network_in_storage(Some(ssid), Some(password)) == Some((ssid, password)),
{
}

/// While the access point is held open nothing is joined but what the host asks
/// for, and every pass brings its end nearer.
pub proof fn law_the_access_point_is_held_open_for_a_while(
    before: RadioState,
    after: RadioState,
    action: RadioAction,
    stage: RadioStage,
)
    requires
        before.passes > 0,
        started(before, None, false, after, action, stage),
    ensures
        action == RadioAction::Report,
        after.passes == before.passes - 1,
{
}

/// Walking down the ladder tries every power on it, and starts over.
pub proof fn law_every_power_is_tried(first: nat, wanted: int)
    requires
        0 <= wanted < 5,
    ensures
        exists|attempt: nat|
            first <= attempt < first + 5 && #[trigger] TX_POWER_LADDER@[attempt as int % 5]
                == TX_POWER_LADDER@[wanted],
{
    let rest = first as int % 5;
    let step = if wanted >= rest {
        wanted - rest
    } else {
        wanted - rest + 5
    };
    let attempt = (first + step) as nat;
    assert(attempt as int % 5 == wanted) by {
        assert(first as int == 5 * (first as int / 5) + rest);
    }
    assert(TX_POWER_LADDER@[attempt as int % 5] == TX_POWER_LADDER@[wanted]);
}

/// A station that lost its network asks first and then joins it again, one try a
/// pass; a join that succeeds starts the ladder over. Every fifth failure in a
/// row, where there is an access point, it is published and held open for
/// fifteen passes.
pub proof fn law_a_lost_network_is_joined_again(
    before: RadioState,
    asked: RadioState,
    action: RadioAction,
    stage: RadioStage,
    online: bool,
    has_access_point: bool,
    trying: RadioState,
    second: RadioAction,
    joining: RadioStage,
    joined: bool,
    tried: RadioState,
    third: RadioAction,
    publishing: RadioStage,
    published: bool,
    after: RadioState,
    fourth: RadioAction,
    last: RadioStage,
)
    requires
        before.passes == 0,
        before.network is Some,
        before.attempt < usize::MAX,
        started(before, None, false, asked, action, stage),
        went_on(asked, stage, online, has_access_point, trying, second, joining),
        went_on(trying, joining, joined, has_access_point, tried, third, publishing),
        went_on(tried, publishing, published, has_access_point, after, fourth, last),
    ensures
        action == RadioAction::AskOnline,
        online ==> second == RadioAction::Report && trying == before,
        !online ==> second == (RadioAction::Join { attempt: before.attempt as usize }),
        !online && joined ==> third == RadioAction::Report && tried == (RadioState {
            attempt: 0,
            ..before
        }),
        !online && !joined ==> tried == (RadioState { attempt: before.attempt + 1, ..before }) && (
        third == RadioAction::PublishAccessPoint <==> has_access_point && (before.attempt + 1) % 5
            == 0),
        third == RadioAction::PublishAccessPoint ==> after.passes == (if published {
            15nat
        } else {
            0
        }) && fourth == RadioAction::Report,
        after.network == before.network,
{
}

/// The ladder goes from the strongest power down, and only to powers that the
/// driver accepts.
pub proof fn law_the_ladder_goes_down(i: int)
    requires
        0 <= i < 5,
    ensures
        8 <= TX_POWER_LADDER@[i] <= 84,
        8 <= TX_POWER_STEPS@[i] <= 84,
        i > 0 ==> TX_POWER_LADDER@[i] < TX_POWER_LADDER@[i - 1],
        i > 0 ==> TX_POWER_STEPS@[i] < TX_POWER_STEPS@[i - 1],
        TX_POWER_LADDER@[0] == 80 && TX_POWER_LADDER@[4] == 32,
        TX_POWER_STEPS@[0] == 80 && TX_POWER_STEPS@[4] == 8,
{
    assert(i == 0 || i == 1 || i == 2 || i == 3 || i == 4);
}

/// The access point that is picked bears the name that was asked for, and none
/// of that name is stronger.
pub proof fn law_the_strongest_of_a_name_is_picked(
    points: Seq<AccessPoint>,
    name: &str,
    at: int,
    other: int,
)
    requires
        is_strongest(points, Some(name), at),
        0 <= other < points.len(),
    ensures
        0 <= at < points.len(),
        points[at].ssid@ == name@,
        points[other].ssid@ == name@ ==> points[other].signal_strength
            <= points[at].signal_strength,
{
    assert(answers(points[other], Some(name)) == (points[other].ssid@ == name@));
}

} // verus!
