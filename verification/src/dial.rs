//! Connecting to the remote host for a new UDP client, with lookups of its name in between.
//!
//! A `Dialer` takes one event after another and answers each with the action that it calls
//! for. All times are nanoseconds from a common start.

use vstd::prelude::*;
use crate::clock::{elapsed, since, SECOND};
use crate::endpoint::{address_change, replacement, Endpoint};

verus! {

/// How long to wait between two lookups of the remote host.
pub const LOOKUP_INTERVAL: u64 = 2 * SECOND;

/// How far back the last lookup is taken to be at the start.
pub const LOOKUP_HEAD_START: u64 = 10 * SECOND;

/// What a dialer waits for.
#[derive(Clone, Copy, Debug, PartialEq, Eq, Structural)]
pub enum DialPhase {
    /// A packet of a new client.
    Idle,
    /// The end of the lookup before the first attempt.
    Resolving,
    /// The end of the first attempt.
    Connecting,
    /// The end of the lookup after the first attempt.
    ResolvingAgain,
    /// The end of the second attempt.
    Retrying,
    /// Word that the connection was taken note of.
    Established,
    /// The end of sending the handshake packet.
    Greeting,
    /// The end of sending the packet of the client.
    Forwarding,
}

/// What happened.
#[derive(Clone, Copy, Debug, PartialEq, Eq, Structural)]
pub enum DialEvent {
    /// A packet of a new client came in; `broken` says whether a connection is known to have
    /// failed.
    Packet { now: u64, broken: bool },
    /// The lookup of the remote host gave this address, while this one was in use.
    Resolved { address: Option<Endpoint>, current: Endpoint },
    /// The attempt to connect ended.
    Connected { now: u64, connected: bool },
    /// The connection was taken note of.
    Ready,
    /// The packet was sent, or could not be.
    Sent { sent: bool },
}

/// What is to be done.
#[derive(Clone, Copy, Debug, PartialEq, Eq, Structural)]
pub enum DialAction {
    /// Look the remote host up.
    Resolve,
    /// Connect to the remote host, after putting the new address in the place of the one in use
    /// if there is a new one.
    Connect { change: Option<Endpoint> },
    /// Take note that no connection is known to have failed.
    ClearBroken,
    /// Send the handshake packet.
    SendHandshake,
    /// Send the packet of the client.
    SendPacket,
    /// Serve the client over the connection.
    Serve,
    /// Drop the packet; `broken` says whether an established connection failed.
    GiveUp { broken: bool },
    /// Nothing.
    Ignore,
}

/// The state of a dialer.
#[derive(Clone, Copy, Debug)]
pub struct Dialer {
    /// Whether the remote host was given by name.
    pub remote_is_domain: bool,
    /// Whether a handshake packet is sent first.
    pub sends_handshake: bool,
    /// How many attempts to connect have failed in a row.
    pub failures: u32,
    /// When the remote host was last looked up.
    pub last_lookup: u64,
    pub phase: DialPhase,
}

impl Dialer {
    /// A lookup is allowed.
    pub open spec fn may_look_up(self, now: u64) -> bool {
        self.remote_is_domain && since(now, self.last_lookup) >= LOOKUP_INTERVAL
    }

    /// The dialer with another phase.
    pub open spec fn in_phase(self, phase: DialPhase) -> Dialer {
        Dialer { phase, ..self }
    }

    /// The attempt has failed and nothing else is tried.
    pub open spec fn given_up(self, broken: bool) -> (Dialer, DialAction) {
        (self.in_phase(DialPhase::Idle), DialAction::GiveUp { broken })
    }

    /// The connection stands.
    pub open spec fn established(self) -> (Dialer, DialAction) {
        (
            Dialer { failures: 0, phase: DialPhase::Established, ..self },
            DialAction::ClearBroken,
        )
    }

    /// The dialer after the event, and the action that the event calls for. An event that the
    /// dialer does not wait for changes nothing.
    pub open spec fn stepped(self, event: DialEvent) -> (Dialer, DialAction) {
        match (self.phase, event) {
            (DialPhase::Idle, DialEvent::Packet { now, broken }) => {
                if (broken || self.failures > 0) && self.may_look_up(now) {
                    (
                        Dialer { last_lookup: now, phase: DialPhase::Resolving, ..self },
                        DialAction::Resolve,
                    )
                } else {
                    (
                        self.in_phase(DialPhase::Connecting),
                        DialAction::Connect { change: None },
                    )
                }
            },
            (DialPhase::Resolving, DialEvent::Resolved { address, current }) => (
                self.in_phase(DialPhase::Connecting),
                DialAction::Connect { change: replacement(current, address) },
            ),
            (DialPhase::Connecting, DialEvent::Connected { now, connected }) => {
                if connected {
                    self.established()
                } else {
                    let failed = Dialer { failures: (self.failures + 1) as u32, ..self };
                    if failed.may_look_up(now) {
                        (
                            Dialer {
                                last_lookup: now,
                                phase: DialPhase::ResolvingAgain,
                                ..failed
                            },
                            DialAction::Resolve,
                        )
                    } else {
                        failed.given_up(false)
                    }
                }
            },
            (DialPhase::ResolvingAgain, DialEvent::Resolved { address, current }) => {
                let change = replacement(current, address);
                if change is Some {
                    (self.in_phase(DialPhase::Retrying), DialAction::Connect { change })
                } else {
                    self.given_up(false)
                }
            },
            (DialPhase::Retrying, DialEvent::Connected { connected, .. }) => {
                if connected {
                    self.established()
                } else {
                    self.given_up(false)
                }
            },
            (DialPhase::Established, DialEvent::Ready) => {
                if self.sends_handshake {
                    (self.in_phase(DialPhase::Greeting), DialAction::SendHandshake)
                } else {
                    (self.in_phase(DialPhase::Forwarding), DialAction::SendPacket)
                }
            },
            (DialPhase::Greeting, DialEvent::Sent { sent }) => {
                if sent {
                    (self.in_phase(DialPhase::Forwarding), DialAction::SendPacket)
                } else {
                    self.given_up(true)
                }
            },
            (DialPhase::Forwarding, DialEvent::Sent { sent }) => {
                if sent {
                    (self.in_phase(DialPhase::Idle), DialAction::Serve)
                } else {
                    self.given_up(true)
                }
            },
            _ => (self, DialAction::Ignore),
        }
    }

    /// The dialer of a client that starts now.
    pub open spec fn started(remote_is_domain: bool, sends_handshake: bool, now: u64) -> Dialer {
        Dialer {
            remote_is_domain,
            sends_handshake,
            failures: 0,
            last_lookup: (now - LOOKUP_HEAD_START) as u64,
            phase: DialPhase::Idle,
        }
    }

    /// Returns a dialer that may look the remote host up at once.
    pub fn new(remote_is_domain: bool, sends_handshake: bool, now: u64) -> (dialer: Dialer)
        requires
            now >= LOOKUP_HEAD_START,
        ensures
            dialer == (Dialer {
                remote_is_domain,
                sends_handshake,
                failures: 0,
                last_lookup: (now - LOOKUP_HEAD_START) as u64,
                phase: DialPhase::Idle,
            }),
            dialer == Dialer::started(remote_is_domain, sends_handshake, now),
            dialer.last_lookup + 10_000_000_000 == now,
    {
        Dialer {
            remote_is_domain,
            sends_handshake,
            failures: 0,
            last_lookup: now - LOOKUP_HEAD_START,
            phase: DialPhase::Idle,
        }
    }

    /// Whether a lookup is allowed.
    fn can_look_up(&self, now: u64) -> (allowed: bool)
        ensures
            allowed == self.may_look_up(now),
    {
        self.remote_is_domain && elapsed(now, self.last_lookup) >= LOOKUP_INTERVAL
    }

    /// Gives the attempt up.
    fn give_up(&mut self, broken: bool) -> (action: DialAction)
        ensures
            (*final(self), action) == old(self).given_up(broken),
    {
        self.phase = DialPhase::Idle;
        DialAction::GiveUp { broken }
    }

    /// Takes an established connection over.
    fn establish(&mut self) -> (action: DialAction)
        ensures
            (*final(self), action) == old(self).established(),
    {
        self.failures = 0;
        self.phase = DialPhase::Established;
        DialAction::ClearBroken
    }

    /// Takes an event and returns the action that it calls for. There is no room for more failed
    /// attempts in a row than `u32::MAX`.
    pub fn step(&mut self, event: DialEvent) -> (action: DialAction)
        requires
            old(self).phase == DialPhase::Connecting ==> old(self).failures < u32::MAX,
        ensures
            (*final(self), action) == old(self).stepped(event),
            final(self).remote_is_domain == old(self).remote_is_domain,
            final(self).sends_handshake == old(self).sends_handshake,
            !(event is Connected) ==> final(self).failures == old(self).failures,
            action != DialAction::Resolve ==> final(self).last_lookup == old(self).last_lookup,
            old(self).phase == DialPhase::Idle && event is Packet ==> action is Connect || action
                is Resolve,
            old(self).phase == DialPhase::Resolving && event is Resolved ==> action is Connect
                && final(self).phase == DialPhase::Connecting,
            match event {
                DialEvent::Resolved { address, current } => match action {
                    DialAction::Connect { change } => change == (if address is Some && address->0
                        != current {
                        address
                    } else {
                        None
                    }),
                    _ => true,
                },
                _ => true,
            },
    {
        match (self.phase, event) {
            (DialPhase::Idle, DialEvent::Packet { now, broken }) => {
                if (broken || self.failures > 0) && self.can_look_up(now) {
                    self.last_lookup = now;
                    self.phase = DialPhase::Resolving;
                    DialAction::Resolve
                } else {
                    self.phase = DialPhase::Connecting;
                    DialAction::Connect { change: None }
                }
            },
            (DialPhase::Resolving, DialEvent::Resolved { address, current }) => {
                self.phase = DialPhase::Connecting;
                DialAction::Connect { change: address_change(current, address) }
            },
            (DialPhase::Connecting, DialEvent::Connected { now, connected }) => {
                if connected {
                    return self.establish();
                }
                self.failures = self.failures + 1;
                if self.can_look_up(now) {
                    self.last_lookup = now;
                    self.phase = DialPhase::ResolvingAgain;
                    DialAction::Resolve
                } else {
                    self.give_up(false)
                }
            },
            (DialPhase::ResolvingAgain, DialEvent::Resolved { address, current }) => {
                match address_change(current, address) {
                    Some(remote) => {
                        self.phase = DialPhase::Retrying;
                        DialAction::Connect { change: Some(remote) }
                    },
                    None => self.give_up(false),
                }
            },
            (DialPhase::Retrying, DialEvent::Connected { connected, .. }) => {
                if connected {
                    self.establish()
                } else {
                    self.give_up(false)
                }
            },
            (DialPhase::Established, DialEvent::Ready) => {
                if self.sends_handshake {
                    self.phase = DialPhase::Greeting;
                    DialAction::SendHandshake
                } else {
                    self.phase = DialPhase::Forwarding;
                    DialAction::SendPacket
                }
            },
            (DialPhase::Greeting, DialEvent::Sent { sent }) => {
                if sent {
                    self.phase = DialPhase::Forwarding;
                    DialAction::SendPacket
                } else {
                    self.give_up(true)
                }
            },
            (DialPhase::Forwarding, DialEvent::Sent { sent }) => {
                if sent {
                    self.phase = DialPhase::Idle;
                    DialAction::Serve
                } else {
                    self.give_up(true)
                }
            },
            _ => DialAction::Ignore,
        }
    }
}

/// A remote host that was given by its address is never looked up. One that was given by name is
/// looked up only in a broken state, or after a failed attempt, and not before the interval
/// since the last lookup has passed.
pub proof fn lookups_are_spaced(dialer: Dialer, event: DialEvent)
    requires
        dialer.stepped(event).1 == DialAction::Resolve,
    ensures
        dialer.remote_is_domain,
        since(dialer.stepped(event).0.last_lookup, dialer.last_lookup) >= LOOKUP_INTERVAL,
        match event {
            DialEvent::Packet { broken, .. } => broken || dialer.failures > 0,
            DialEvent::Connected { connected, .. } => !connected,
            _ => false,
        },
{
}

/// A new connection ends a row of failures, and its action clears the broken state.
pub proof fn success_resets_failures(dialer: Dialer, event: DialEvent)
    requires
        dialer.stepped(event).0.phase == DialPhase::Established,
        dialer.phase != DialPhase::Established,
    ensures
        dialer.stepped(event).0.failures == 0,
        dialer.stepped(event).1 == DialAction::ClearBroken,
        event matches DialEvent::Connected { connected, .. } && connected,
{
}

/// A first attempt that fails is counted, and a second one is made only at another address than
/// the one in use.
pub proof fn retry_needs_new_address(dialer: Dialer, event: DialEvent)
    requires
        dialer.stepped(event).0.phase == DialPhase::Retrying,
        dialer.phase != DialPhase::Retrying,
    ensures
        dialer.phase == DialPhase::ResolvingAgain,
        event matches DialEvent::Resolved { address, current } && address is Some && address->0
            != current && dialer.stepped(event).1 == (DialAction::Connect { change: address }),
{
}

/// How many events a dialer takes at most before it is idle again.
pub open spec fn phase_rank(phase: DialPhase) -> nat {
    match phase {
        DialPhase::Idle => 8,
        DialPhase::Resolving => 7,
        DialPhase::Connecting => 6,
        DialPhase::ResolvingAgain => 5,
        DialPhase::Retrying => 4,
        DialPhase::Established => 3,
        DialPhase::Greeting => 2,
        DialPhase::Forwarding => 1,
    }
}

/// A dialer comes back to where it waits for the next client: each event that it waits for takes
/// it there or nearer to it.
pub proof fn dialing_makes_progress(dialer: Dialer, event: DialEvent)
    requires
        dialer.stepped(event).1 != DialAction::Ignore,
    ensures
        dialer.stepped(event).0.phase == DialPhase::Idle || phase_rank(
            dialer.stepped(event).0.phase,
        ) < phase_rank(dialer.phase),
{
}

} // verus!
