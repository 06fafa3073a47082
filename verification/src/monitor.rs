//! Watching over an established connection: when to probe it, when to look the remote host up
//! again, and when to close.
//!
//! A `Monitor` takes one event after another and answers each with the action that it calls
//! for. All times are nanoseconds from a common start.

use vstd::prelude::*;
use crate::clock::{elapsed, since, SECOND};
use crate::endpoint::{address_change, replacement, Endpoint};

verus! {

/// How long a connection may stay silent before the remote host is looked up again.
pub const LOOKUP_AFTER: u64 = 10 * SECOND;

/// How long to wait between two lookups of the remote host.
pub const LOOKUP_INTERVAL: u64 = 5 * SECOND;

/// What a monitor goes by.
#[derive(Clone, Copy, Debug)]
pub struct MonitorConfig {
    /// How long the server may stay silent while packets are sent to it; zero means forever.
    pub active_timeout: u64,
    /// How long the server may stay silent before it is probed, if it is to be probed at all.
    pub keepalive_time: Option<u64>,
    /// How long to wait between two probes.
    pub keepalive_interval: u64,
    /// How many probes may stay without an answer.
    pub keepalive_retries: u32,
    /// Whether the remote host was given by name.
    pub remote_is_domain: bool,
    /// How long a connection may stay without any traffic.
    pub idle_timeout: u64,
}

/// What a monitor waits for.
#[derive(Clone, Copy, Debug, PartialEq, Eq, Structural)]
pub enum MonitorPhase {
    /// The next tick or packet.
    Waiting,
    /// The end of sending the probe that was due at the tick.
    Probing { tick: u64 },
    /// The end of the lookup that was due at the tick.
    Resolving { tick: u64 },
    /// Nothing: the connection is closed.
    Closed,
}

/// What happened.
#[derive(Clone, Copy, Debug, PartialEq, Eq, Structural)]
pub enum MonitorEvent {
    /// A second has passed.
    Tick { now: u64 },
    /// A packet was sent to the server.
    UdpPacket { now: u64 },
    /// A packet came from the server.
    TcpPacket { now: u64 },
    /// A packet went either way.
    Data { now: u64 },
    /// The probe was sent, or could not be.
    ProbeSent { now: u64 },
    /// The lookup of the remote host gave this address, while this one was in use.
    Resolved { address: Option<Endpoint>, current: Endpoint },
    /// A worker of the connection gave up.
    Quit,
}

/// What is to be done.
#[derive(Clone, Copy, Debug, PartialEq, Eq, Structural)]
pub enum MonitorAction {
    /// Wait for the next event.
    Wait,
    /// Send a probe.
    SendProbe,
    /// Look the remote host up.
    Resolve,
    /// Close the connection; `broken` says whether it failed, and `remote` is the new address
    /// of the remote host, if it has one.
    Close { broken: bool, remote: Option<Endpoint> },
}

/// The state of a monitor.
#[derive(Clone, Copy, Debug)]
pub struct Monitor {
    pub config: MonitorConfig,
    pub last_tcp: u64,
    pub last_udp: u64,
    pub last_data: u64,
    pub last_probe: u64,
    pub probes_sent: u32,
    pub last_lookup: u64,
    pub phase: MonitorPhase,
}

impl Monitor {
    /// No more probes are unanswered than may be, and a probe that is being sent is still
    /// allowed.
    pub open spec fn wf(self) -> bool {
        &&& self.probes_sent <= self.config.keepalive_retries
        &&& self.phase is Probing ==> self.probes_sent < self.config.keepalive_retries
    }

    /// Packets are sent to the server, but it has been silent for too long.
    pub open spec fn is_broken_at(self, now: u64) -> bool {
        &&& self.config.active_timeout > 0
        &&& self.last_udp > self.last_tcp
        &&& since(now, self.last_tcp) >= self.config.active_timeout
    }

    /// It is time for a probe.
    pub open spec fn is_probe_due(self, now: u64) -> bool {
        &&& self.config.keepalive_time is Some
        &&& since(now, self.last_tcp) >= self.config.keepalive_time->0
        &&& since(now, self.last_probe) >= self.config.keepalive_interval
    }

    /// It is time to look the remote host up.
    pub open spec fn is_lookup_due(self, now: u64) -> bool {
        &&& self.config.remote_is_domain
        &&& self.last_udp > self.last_tcp
        &&& since(now, self.last_tcp) >= LOOKUP_AFTER
        &&& since(now, self.last_lookup) >= LOOKUP_INTERVAL
    }

    /// There was no traffic for too long.
    pub open spec fn is_idle_at(self, now: u64) -> bool {
        since(now, self.last_data) >= self.config.idle_timeout
    }

    /// The monitor with another phase.
    pub open spec fn in_phase(self, phase: MonitorPhase) -> Monitor {
        Monitor { phase, ..self }
    }

    /// The connection is closed.
    pub open spec fn closed(self, broken: bool, remote: Option<Endpoint>) -> (Monitor, MonitorAction) {
        (self.in_phase(MonitorPhase::Closed), MonitorAction::Close { broken, remote })
    }

    /// The end of a tick: close an idle connection, else wait.
    pub open spec fn after_lookup(self, tick: u64) -> (Monitor, MonitorAction) {
        if self.is_idle_at(tick) {
            self.closed(false, None)
        } else {
            (self.in_phase(MonitorPhase::Waiting), MonitorAction::Wait)
        }
    }

    /// The part of a tick behind the probe: look the remote host up if it is time, else end the
    /// tick.
    pub open spec fn after_probe(self, tick: u64) -> (Monitor, MonitorAction) {
        if self.is_lookup_due(tick) {
            (
                Monitor { last_lookup: tick, phase: MonitorPhase::Resolving { tick }, ..self },
                MonitorAction::Resolve,
            )
        } else {
            self.after_lookup(tick)
        }
    }

    /// A tick: close a broken connection; probe it if it is time, or close it when the probes
    /// are used up; else go on.
    pub open spec fn at_tick(self, now: u64) -> (Monitor, MonitorAction) {
        if self.is_broken_at(now) {
            self.closed(true, None)
        } else if self.is_probe_due(now) {
            if self.probes_sent >= self.config.keepalive_retries {
                self.closed(true, None)
            } else {
                (self.in_phase(MonitorPhase::Probing { tick: now }), MonitorAction::SendProbe)
            }
        } else {
            self.after_probe(now)
        }
    }

    /// The monitor after the event, and the action that the event calls for. An event that the
    /// monitor does not wait for changes nothing.
    pub open spec fn stepped(self, event: MonitorEvent) -> (Monitor, MonitorAction) {
        match self.phase {
            MonitorPhase::Waiting => match event {
                MonitorEvent::Tick { now } => self.at_tick(now),
                MonitorEvent::UdpPacket { now } => (
                    Monitor { last_udp: now, ..self },
                    MonitorAction::Wait,
                ),
                MonitorEvent::TcpPacket { now } => (
                    Monitor { last_tcp: now, probes_sent: 0, ..self },
                    MonitorAction::Wait,
                ),
                MonitorEvent::Data { now } => (
                    Monitor { last_data: now, ..self },
                    MonitorAction::Wait,
                ),
                MonitorEvent::Quit => self.closed(true, None),
                _ => (self, MonitorAction::Wait),
            },
            MonitorPhase::Probing { tick } => match event {
                MonitorEvent::ProbeSent { now } => Monitor {
                    probes_sent: (self.probes_sent + 1) as u32,
                    last_probe: now,
                    ..self
                }.after_probe(tick),
                _ => (self, MonitorAction::Wait),
            },
            MonitorPhase::Resolving { tick } => match event {
                MonitorEvent::Resolved { address, current } => {
                    let change = replacement(current, address);
                    if change is Some {
                        self.closed(true, change)
                    } else {
                        self.after_lookup(tick)
                    }
                },
                _ => (self, MonitorAction::Wait),
            },
            MonitorPhase::Closed => (self, MonitorAction::Wait),
        }
    }

    /// The monitor of a connection that was established just now.
    pub open spec fn started(
        config: MonitorConfig,
        last_tcp: u64,
        last_udp: u64,
        last_data: u64,
        last_probe: u64,
        last_lookup: u64,
    ) -> Monitor {
        Monitor {
            config,
            last_tcp,
            last_udp,
            last_data,
            last_probe,
            probes_sent: 0,
            last_lookup,
            phase: MonitorPhase::Waiting,
        }
    }

    /// Returns a monitor for a connection that was established just now. The times are readings
    /// of the clock in this order; a later reading for `last_udp` than for `last_tcp` lets the
    /// packet count that was sent before there was a monitor.
    pub fn new(
        config: MonitorConfig,
        last_tcp: u64,
        last_udp: u64,
        last_data: u64,
        last_probe: u64,
        last_lookup: u64,
    ) -> (monitor: Monitor)
        ensures
            monitor == (Monitor {
                config,
                last_tcp,
                last_udp,
                last_data,
                last_probe,
                probes_sent: 0,
                last_lookup,
                phase: MonitorPhase::Waiting,
            }),
            monitor == Monitor::started(
                config,
                last_tcp,
                last_udp,
                last_data,
                last_probe,
                last_lookup,
            ),
            monitor.wf(),
    {
        Monitor {
            config,
            last_tcp,
            last_udp,
            last_data,
            last_probe,
            probes_sent: 0,
            last_lookup,
            phase: MonitorPhase::Waiting,
        }
    }

    /// Closes the connection.
    fn close(&mut self, broken: bool, remote: Option<Endpoint>) -> (action: MonitorAction)
        ensures
            (*final(self), action) == old(self).closed(broken, remote),
    {
        self.phase = MonitorPhase::Closed;
        MonitorAction::Close { broken, remote }
    }

    /// Ends a tick.
    fn finish_tick(&mut self, tick: u64) -> (action: MonitorAction)
        ensures
            (*final(self), action) == old(self).after_lookup(tick),
    {
        if elapsed(tick, self.last_data) >= self.config.idle_timeout {
            self.close(false, None)
        } else {
            self.phase = MonitorPhase::Waiting;
            MonitorAction::Wait
        }
    }

    /// Goes on with a tick behind the probe.
    fn look_up(&mut self, tick: u64) -> (action: MonitorAction)
        ensures
            (*final(self), action) == old(self).after_probe(tick),
    {
        if self.config.remote_is_domain && self.last_udp > self.last_tcp && elapsed(
            tick,
            self.last_tcp,
        ) >= LOOKUP_AFTER && elapsed(tick, self.last_lookup) >= LOOKUP_INTERVAL {
            self.last_lookup = tick;
            self.phase = MonitorPhase::Resolving { tick };
            MonitorAction::Resolve
        } else {
            self.finish_tick(tick)
        }
    }

    /// Begins a tick.
    fn tick(&mut self, now: u64) -> (action: MonitorAction)
        ensures
            (*final(self), action) == old(self).at_tick(now),
    {
        let silence: u64 = elapsed(now, self.last_tcp);
        if self.config.active_timeout > 0 && self.last_udp > self.last_tcp && silence
            >= self.config.active_timeout {
            return self.close(true, None);
        }
        let probe_due = match self.config.keepalive_time {
            Some(time) => silence >= time && elapsed(now, self.last_probe)
                >= self.config.keepalive_interval,
            None => false,
        };
        if !probe_due {
            return self.look_up(now);
        }
        if self.probes_sent >= self.config.keepalive_retries {
            return self.close(true, None);
        }
        self.phase = MonitorPhase::Probing { tick: now };
        MonitorAction::SendProbe
    }

    /// Takes an event and returns the action that it calls for.
    pub fn step(&mut self, event: MonitorEvent) -> (action: MonitorAction)
        requires
            old(self).wf(),
        ensures
            (*final(self), action) == old(self).stepped(event),
            final(self).wf(),
            final(self).config == old(self).config,
            !(event is TcpPacket) ==> final(self).last_tcp == old(self).last_tcp,
            !(event is TcpPacket || event is ProbeSent) ==> final(self).probes_sent == old(
                self,
            ).probes_sent,
            !(event is UdpPacket) ==> final(self).last_udp == old(self).last_udp,
            !(event is Data) ==> final(self).last_data == old(self).last_data,
            !(event is ProbeSent) ==> final(self).last_probe == old(self).last_probe,
            action != MonitorAction::Resolve ==> final(self).last_lookup == old(self).last_lookup,
    {
        match self.phase {
            MonitorPhase::Waiting => match event {
                MonitorEvent::Tick { now } => self.tick(now),
                MonitorEvent::UdpPacket { now } => {
                    self.last_udp = now;
                    MonitorAction::Wait
                },
                MonitorEvent::TcpPacket { now } => {
                    self.last_tcp = now;
                    self.probes_sent = 0;
                    MonitorAction::Wait
                },
                MonitorEvent::Data { now } => {
                    self.last_data = now;
                    MonitorAction::Wait
                },
                MonitorEvent::Quit => self.close(true, None),
                _ => MonitorAction::Wait,
            },
            MonitorPhase::Probing { tick } => match event {
                MonitorEvent::ProbeSent { now } => {
                    self.probes_sent = self.probes_sent + 1;
                    self.last_probe = now;
                    self.look_up(tick)
                },
                _ => MonitorAction::Wait,
            },
            MonitorPhase::Resolving { tick } => match event {
                MonitorEvent::Resolved { address, current } => {
                    match address_change(current, address) {
                        Some(remote) => self.close(true, Some(remote)),
                        None => self.finish_tick(tick),
                    }
                },
                _ => MonitorAction::Wait,
            },
            MonitorPhase::Closed => MonitorAction::Wait,
        }
    }
}

/// Without a timeout, silence of the server never breaks a connection.
pub proof fn zero_timeout_is_disabled(monitor: Monitor, now: u64)
    requires
        monitor.config.active_timeout == 0,
    ensures
        !monitor.is_broken_at(now),
{
}

/// When packets are sent to the server and it has been silent for the timeout, the next tick
/// closes the connection as broken.
pub proof fn silence_closes(monitor: Monitor, now: u64)
    requires
        monitor.phase == MonitorPhase::Waiting,
        monitor.config.active_timeout > 0,
        monitor.last_udp > monitor.last_tcp,
        since(now, monitor.last_tcp) >= monitor.config.active_timeout,
    ensures
        monitor.stepped(MonitorEvent::Tick { now }).1 == (MonitorAction::Close {
            broken: true,
            remote: None,
        }),
{
}

/// The tick that an event belongs to, if it belongs to one.
pub open spec fn tick_of(monitor: Monitor, event: MonitorEvent) -> Option<u64> {
    match (monitor.phase, event) {
        (MonitorPhase::Waiting, MonitorEvent::Tick { now }) => Some(now),
        (MonitorPhase::Probing { tick }, MonitorEvent::ProbeSent { .. }) => Some(tick),
        (MonitorPhase::Resolving { tick }, MonitorEvent::Resolved { .. }) => Some(tick),
        _ => None,
    }
}

/// No connection outlives its idle timeout: a tick ends with waiting for the next only where
/// there was traffic in time.
pub proof fn idle_connection_is_closed(monitor: Monitor, event: MonitorEvent)
    requires
        tick_of(monitor, event) is Some,
        monitor.stepped(event).1 == MonitorAction::Wait,
    ensures
        !monitor.is_idle_at(tick_of(monitor, event)->0),
{
}

/// Without a keepalive time, no probe is ever sent.
pub proof fn no_probe_without_keepalive(monitor: Monitor, event: MonitorEvent)
    requires
        monitor.config.keepalive_time is None,
    ensures
        monitor.stepped(event).1 != MonitorAction::SendProbe,
{
}

/// A probe is sent only at a tick, when the server has been silent for the keepalive time, the
/// last probe is an interval away, and there are retries left.
pub proof fn probes_are_spaced(monitor: Monitor, event: MonitorEvent)
    requires
        monitor.stepped(event).1 == MonitorAction::SendProbe,
    ensures
        event matches MonitorEvent::Tick { now } && {
            &&& monitor.config.keepalive_time is Some
            &&& since(now, monitor.last_tcp) >= monitor.config.keepalive_time->0
            &&& since(now, monitor.last_probe) >= monitor.config.keepalive_interval
            &&& monitor.probes_sent < monitor.config.keepalive_retries
        },
{
}

/// When the probes are used up and another would be due, the connection is closed as broken.
pub proof fn unanswered_probes_close(monitor: Monitor, now: u64)
    requires
        monitor.phase == MonitorPhase::Waiting,
        monitor.is_probe_due(now),
        monitor.probes_sent >= monitor.config.keepalive_retries,
    ensures
        monitor.stepped(MonitorEvent::Tick { now }).1 == (MonitorAction::Close {
            broken: true,
            remote: None,
        }),
{
}

/// A packet from the server gives all retries back.
pub proof fn answer_resets_probes(monitor: Monitor, now: u64)
    requires
        monitor.phase == MonitorPhase::Waiting,
    ensures
        monitor.stepped(MonitorEvent::TcpPacket { now }).0.probes_sent == 0,
        !monitor.stepped(MonitorEvent::TcpPacket { now }).0.is_broken_at(now),
{
}

/// A remote host that was given by its address is never looked up, and one that was given by
/// name only after the silence and the interval that lookups need.
pub proof fn lookups_are_spaced(monitor: Monitor, event: MonitorEvent)
    requires
        monitor.stepped(event).1 == MonitorAction::Resolve,
    ensures
        monitor.config.remote_is_domain,
        since(monitor.stepped(event).0.last_lookup, monitor.last_tcp) >= LOOKUP_AFTER,
        since(monitor.stepped(event).0.last_lookup, monitor.last_lookup) >= LOOKUP_INTERVAL,
{
}

/// A connection is closed with a new address of the remote host only when a lookup gave an
/// address other than the one in use.
pub proof fn new_remote_comes_from_lookup(monitor: Monitor, event: MonitorEvent, remote: Endpoint)
    requires
        monitor.stepped(event).1 matches MonitorAction::Close { remote: change, .. } && change == Some(
            remote,
        ),
    ensures
        event matches MonitorEvent::Resolved { address, current } && address == Some(remote) && current
            != remote,
        monitor.stepped(event).1 == (MonitorAction::Close { broken: true, remote: Some(remote) }),
{
}

/// A closed connection stays closed, and nothing more is done for it.
pub proof fn closed_stays_closed(monitor: Monitor, event: MonitorEvent)
    requires
        monitor.phase == MonitorPhase::Closed,
    ensures
        monitor.stepped(event) == (monitor, MonitorAction::Wait),
{
}

} // verus!
