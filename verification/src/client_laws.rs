//! What the decisions of the client come to, event by event and over runs of events.

use vstd::prelude::*;
use crate::clock::since;
use crate::dial::{DialAction, DialEvent, DialPhase, Dialer};
use crate::endpoint::{
    assignment, binding, first_eligible, replacement, same_family, Endpoint, IpAddress,
};
use crate::handshake::{hands_on, is_banner};
use crate::monitor::{Monitor, MonitorAction, MonitorConfig, MonitorEvent, MonitorPhase};

verus! {

/// The time that has passed brings the earlier of two points in time to the later.
pub proof fn elapsed_time_leads_to_now(now: u64, then: u64)
    ensures
        then <= now ==> then + since(now, then) == now,
        now <= then ==> since(now, then) == 0,
{
}

/// The address that is picked is the first that may be used: it stands at an index before which
/// all addresses are IPv6 addresses while only IPv4 is wanted. Where both are wanted it is the
/// first of all, and nothing is picked only where nothing may be used.
pub proof fn first_usable_address_is_picked(addresses: Seq<Endpoint>, ipv4_only: bool)
    ensures
        match first_eligible(addresses, ipv4_only) {
            Some(address) => exists|i: int|
                0 <= i < addresses.len() && #[trigger] addresses[i] == address && (ipv4_only
                    ==> address is V4) && forall|j: int|
                    0 <= j < i ==> ipv4_only && #[trigger] addresses[j] is V6,
            None => forall|i: int|
                0 <= i < addresses.len() ==> ipv4_only && #[trigger] addresses[i] is V6,
        },
        !ipv4_only && addresses.len() > 0 ==> first_eligible(addresses, ipv4_only) == Some(
            addresses[0],
        ),
    decreases addresses.len(),
{
    if addresses.len() > 0 {
        if !ipv4_only || addresses[0] is V4 {
            assert(first_eligible(addresses, ipv4_only) == Some(addresses[0]));
        } else {
            let rest = addresses.drop_first();
            first_usable_address_is_picked(rest, ipv4_only);
            match first_eligible(rest, ipv4_only) {
                Some(address) => {
                    let i = choose|i: int|
                        0 <= i < rest.len() && #[trigger] rest[i] == address && forall|j: int|
                            0 <= j < i ==> ipv4_only && #[trigger] rest[j] is V6;
                    assert(addresses[i + 1] == address);
                    assert forall|j: int| 0 <= j < i + 1 implies ipv4_only
                        && #[trigger] addresses[j] is V6 by {
                        if j > 0 {
                            assert(rest[j - 1] == addresses[j]);
                        }
                    }
                },
                None => {
                    assert forall|i: int| 0 <= i < addresses.len() implies ipv4_only
                        && #[trigger] addresses[i] is V6 by {
                        if i > 0 {
                            assert(rest[i - 1] == addresses[i]);
                        }
                    }
                },
            }
        }
    }
}

/// What stands behind the first address that may be used does not matter.
pub proof fn later_addresses_do_not_matter(
    addresses: Seq<Endpoint>,
    more: Seq<Endpoint>,
    ipv4_only: bool,
)
    requires
        first_eligible(addresses, ipv4_only) is Some,
    ensures
        first_eligible(addresses + more, ipv4_only) == first_eligible(addresses, ipv4_only),
    decreases addresses.len(),
{
    let all = addresses + more;
    assert(all[0] == addresses[0]);
    if ipv4_only && addresses[0] is V6 {
        assert(all.drop_first() =~= addresses.drop_first() + more);
        later_addresses_do_not_matter(addresses.drop_first(), more, ipv4_only);
    }
}

/// The address in use is replaced exactly by another one that a lookup gave; looking up once more
/// then changes nothing.
pub proof fn only_another_address_replaces(
    current: Endpoint,
    resolved: Option<Endpoint>,
    other: Endpoint,
)
    ensures
        replacement(current, resolved) == Some(other) <==> resolved == Some(other) && other
            != current,
        replacement(other, Some(other)) is None,
        replacement(current, None) is None,
{
}

/// The packet begins with the bytes of `SSH-`.
pub open spec fn begins_as_ssh(packet: Seq<u8>) -> bool {
    packet.len() >= 4 && packet[0] == 0x53 && packet[1] == 0x53 && packet[2] == 0x48 && packet[3]
        == 0x2d
}

/// What begins with `SSH-` is a handshake packet whatever the own one is, and so is a copy of the
/// own one; nothing else is.
pub proof fn banners_are_ssh_or_own(packet: Seq<u8>, own: Seq<u8>)
    ensures
        begins_as_ssh(packet) ==> is_banner(packet, None) && is_banner(packet, Some(own)),
        is_banner(own, Some(own)),
        is_banner(packet, None) ==> begins_as_ssh(packet),
        is_banner(packet, Some(own)) ==> begins_as_ssh(packet) || packet == own,
{
    crate::handshake::lemma_ssh_prefix(packet);
}

/// With the filter on, a packet that begins with `SSH-` is never handed on, nor is a copy of the
/// own handshake packet, and every other packet that is not empty is. With the filter off, every
/// packet that is not empty is handed on.
pub proof fn filter_keeps_handshakes_back(packet: Seq<u8>, own: Seq<u8>)
    ensures
        begins_as_ssh(packet) ==> !hands_on(true, packet, None) && !hands_on(
            true,
            packet,
            Some(own),
        ),
        !hands_on(true, own, Some(own)),
        packet.len() > 0 && !begins_as_ssh(packet) ==> hands_on(true, packet, None),
        packet.len() > 0 && !begins_as_ssh(packet) && packet != own ==> hands_on(
            true,
            packet,
            Some(own),
        ),
        hands_on(false, packet, None) <==> packet.len() > 0,
        hands_on(false, packet, Some(own)) <==> packet.len() > 0,
        !hands_on(true, Seq::empty(), None) && !hands_on(true, Seq::empty(), Some(own)),
{
    banners_are_ssh_or_own(packet, own);
    banners_are_ssh_or_own(own, own);
}

/// Answers leave from the local address and port, whatever the remote one is; of the remote, only
/// the flow and the scope of an IPv6 address are taken over.
pub proof fn answers_leave_from_the_local_address(
    remote: Endpoint,
    other: Endpoint,
    local: IpAddress,
    port: u16,
)
    requires
        same_family(remote, local),
        same_family(other, local),
    ensures
        match binding(remote, local, port) {
            Endpoint::V4 { ip, port: from } => local == IpAddress::V4(ip) && from == port,
            Endpoint::V6 { ip6, port: from, flowinfo, scope_id } => {
                &&& local == IpAddress::V6(ip6) && from == port
                &&& remote->flowinfo == flowinfo && remote->scope_id == scope_id
            },
        },
        local is V4 ==> binding(remote, local, port) == binding(other, local, port),
{
}

/// The tunnel is given IPv6 addresses once, when the remote has an IPv6 address and both are known:
/// its own and that of its peer, in this order.
pub proof fn tunnel_is_given_addresses_once(
    remote: Endpoint,
    assigned: bool,
    local: Option<u128>,
    peer: Option<u128>,
    own: u128,
    other: u128,
)
    ensures
        assignment(remote, assigned, local, peer) == Some((own, other)) <==> remote is V6
            && !assigned && local == Some(own) && peer == Some(other),
        assignment(remote, true, local, peer) is None,
{
}

// ---- the monitor ----

/// A new monitor counts what was sent before there was one: if the last packet to the server is
/// later than the last one from it, silence from then on ends the connection. No probe is
/// unanswered yet.
pub proof fn new_monitor_counts_what_was_sent(
    config: MonitorConfig,
    last_tcp: u64,
    last_udp: u64,
    last_data: u64,
    last_probe: u64,
    last_lookup: u64,
    now: u64,
)
    ensures
        ({
            let monitor = Monitor::started(
                config,
                last_tcp,
                last_udp,
                last_data,
                last_probe,
                last_lookup,
            );
            &&& monitor.config == config && monitor.probes_sent == 0 && monitor.phase is Waiting
            &&& monitor.last_tcp == last_tcp && monitor.last_udp == last_udp
            &&& monitor.last_data == last_data && monitor.last_probe == last_probe
            &&& monitor.last_lookup == last_lookup
            &&& config.active_timeout > 0 && last_udp > last_tcp && now >= last_tcp
                + config.active_timeout ==> monitor.stepped(MonitorEvent::Tick { now }).1 == (
            MonitorAction::Close { broken: true, remote: None })
        }),
{
}

/// `time` nanoseconds or more have passed from `then` to `now`.
pub open spec fn passed(now: u64, then: u64, time: u64) -> bool {
    time == 0 || now >= then + time
}

/// Only a packet from the server ends its silence and, apart from a probe that was sent, changes
/// how many probes are unanswered.
pub proof fn only_the_server_ends_its_silence(monitor: Monitor, event: MonitorEvent)
    requires
        !(event is TcpPacket),
    ensures
        monitor.stepped(event).0.last_tcp == monitor.last_tcp,
        !(event is ProbeSent) ==> monitor.stepped(event).0.probes_sent == monitor.probes_sent,
{
}

/// What a monitor goes by never changes.
pub proof fn config_never_changes(monitor: Monitor, event: MonitorEvent)
    ensures
        monitor.stepped(event).0.config == monitor.config,
{
}

/// Each packet sets its own time and no other, calls for nothing, and leaves the phase as it is.
pub proof fn packets_set_their_own_time(monitor: Monitor, now: u64)
    requires
        monitor.phase is Waiting,
    ensures
        monitor.stepped(MonitorEvent::TcpPacket { now }) == (
            (Monitor { last_tcp: now, probes_sent: 0, ..monitor }),
            MonitorAction::Wait,
        ),
        monitor.stepped(MonitorEvent::UdpPacket { now }) == (
            (Monitor { last_udp: now, ..monitor }),
            MonitorAction::Wait,
        ),
        monitor.stepped(MonitorEvent::Data { now }) == (
            (Monitor { last_data: now, ..monitor }),
            MonitorAction::Wait,
        ),
{
}

/// The times of packets change with packets of their kind alone; the time of the last probe with
/// a probe alone, and that of the last lookup with a lookup alone.
pub proof fn times_change_with_their_events(monitor: Monitor, event: MonitorEvent)
    ensures
        !(event is UdpPacket) ==> monitor.stepped(event).0.last_udp == monitor.last_udp,
        !(event is Data) ==> monitor.stepped(event).0.last_data == monitor.last_data,
        !(event is ProbeSent) ==> monitor.stepped(event).0.last_probe == monitor.last_probe,
        monitor.stepped(event).1 != MonitorAction::Resolve ==> monitor.stepped(event).0.last_lookup
            == monitor.last_lookup,
{
}

/// The server has been silent too long while packets were sent to it.
pub open spec fn is_dead(monitor: Monitor, now: u64) -> bool {
    &&& monitor.config.active_timeout > 0
    &&& monitor.last_udp > monitor.last_tcp
    &&& now >= monitor.last_tcp + monitor.config.active_timeout
}

/// A probe would be due.
pub open spec fn wants_probe(monitor: Monitor, now: u64) -> bool {
    &&& monitor.config.keepalive_time is Some
    &&& passed(now, monitor.last_tcp, monitor.config.keepalive_time->0)
    &&& passed(now, monitor.last_probe, monitor.config.keepalive_interval)
}

/// A lookup would be due: ten seconds of silence while packets were sent, and five seconds since
/// the last lookup.
pub open spec fn wants_lookup(monitor: Monitor, now: u64) -> bool {
    &&& monitor.config.remote_is_domain
    &&& monitor.last_udp > monitor.last_tcp
    &&& now >= monitor.last_tcp + 10_000_000_000
    &&& now >= monitor.last_lookup + 5_000_000_000
}

/// What a tick comes to: a dead connection, or one whose probes are used up when another would be
/// due, is closed as broken; else a due probe is sent; else a due lookup is made; else an idle
/// connection is closed; else the monitor waits.
pub proof fn ticks_are_decided(monitor: Monitor, now: u64)
    requires
        monitor.phase is Waiting,
    ensures
        ({
            let (next, action) = monitor.stepped(MonitorEvent::Tick { now });
            let used_up = monitor.probes_sent >= monitor.config.keepalive_retries;
            let idle = passed(now, monitor.last_data, monitor.config.idle_timeout);
            if is_dead(monitor, now) || (wants_probe(monitor, now) && used_up) {
                &&& action == (MonitorAction::Close { broken: true, remote: None })
                &&& next == (Monitor { phase: MonitorPhase::Closed, ..monitor })
            } else if wants_probe(monitor, now) {
                &&& action == MonitorAction::SendProbe
                &&& next == (Monitor { phase: MonitorPhase::Probing { tick: now }, ..monitor })
            } else if wants_lookup(monitor, now) {
                &&& action == MonitorAction::Resolve
                &&& next == (Monitor {
                    last_lookup: now,
                    phase: MonitorPhase::Resolving { tick: now },
                    ..monitor
                })
            } else if idle {
                &&& action == (MonitorAction::Close { broken: false, remote: None })
                &&& next == (Monitor { phase: MonitorPhase::Closed, ..monitor })
            } else {
                &&& action == MonitorAction::Wait
                &&& next == monitor
            }
        }),
{
}

/// A probe that was sent is counted, and its tick goes on with the lookup and the idle timeout.
pub proof fn probes_are_counted(monitor: Monitor, tick: u64, now: u64)
    requires
        monitor.phase == (MonitorPhase::Probing { tick }),
        monitor.probes_sent < u32::MAX,
    ensures
        ({
            let (next, action) = monitor.stepped(MonitorEvent::ProbeSent { now });
            let idle = passed(tick, monitor.last_data, monitor.config.idle_timeout);
            &&& next.probes_sent == monitor.probes_sent + 1
            &&& next.last_probe == now
            &&& next.last_tcp == monitor.last_tcp && next.last_udp == monitor.last_udp
            &&& if wants_lookup(monitor, tick) {
                &&& action == MonitorAction::Resolve
                &&& next.last_lookup == tick
                &&& next.phase == (MonitorPhase::Resolving { tick })
            } else if idle {
                &&& action == (MonitorAction::Close { broken: false, remote: None })
                &&& next.phase is Closed
            } else {
                &&& action == MonitorAction::Wait
                &&& next.phase is Waiting
            }
        }),
{
}

/// A lookup that gave another address closes the connection as broken and hands that address on;
/// any other lets the tick end with the idle timeout.
pub proof fn lookups_are_judged(
    monitor: Monitor,
    tick: u64,
    address: Option<Endpoint>,
    current: Endpoint,
)
    requires
        monitor.phase == (MonitorPhase::Resolving { tick }),
    ensures
        ({
            let (next, action) = monitor.stepped(MonitorEvent::Resolved { address, current });
            let idle = passed(tick, monitor.last_data, monitor.config.idle_timeout);
            if address is Some && address->0 != current {
                &&& action == (MonitorAction::Close { broken: true, remote: address })
                &&& next == (Monitor { phase: MonitorPhase::Closed, ..monitor })
            } else if idle {
                &&& action == (MonitorAction::Close { broken: false, remote: None })
                &&& next == (Monitor { phase: MonitorPhase::Closed, ..monitor })
            } else {
                &&& action == MonitorAction::Wait
                &&& next == (Monitor { phase: MonitorPhase::Waiting, ..monitor })
            }
        }),
{
}

/// A worker that gives up breaks the connection. What the monitor does not wait for changes
/// nothing.
pub proof fn other_events_change_nothing(monitor: Monitor, event: MonitorEvent)
    ensures
        monitor.phase is Waiting && event is Quit ==> monitor.stepped(event) == (
            (Monitor { phase: MonitorPhase::Closed, ..monitor }),
            (MonitorAction::Close { broken: true, remote: None }),
        ),
        monitor.phase is Waiting && (event is ProbeSent || event is Resolved) ==> monitor.stepped(
            event,
        ) == (monitor, MonitorAction::Wait),
        monitor.phase is Probing && !(event is ProbeSent) ==> monitor.stepped(event) == (
            monitor,
            MonitorAction::Wait,
        ),
        monitor.phase is Resolving && !(event is Resolved) ==> monitor.stepped(event) == (
            monitor,
            MonitorAction::Wait,
        ),
        monitor.phase is Closed ==> monitor.stepped(event) == (monitor, MonitorAction::Wait),
{
}

/// The monitor after the events.
pub open spec fn monitor_after(monitor: Monitor, events: Seq<MonitorEvent>) -> Monitor
    decreases events.len(),
{
    if events.len() == 0 {
        monitor
    } else {
        monitor_after(monitor, events.drop_last()).stepped(events.last()).0
    }
}

/// Over any run of events, the time of the server's last packet is that of such a packet among
/// them, or what it was at the start; without one the server stays silent, and without a probe
/// sent no more probes are unanswered.
pub proof fn silence_lasts_until_the_server_speaks(monitor: Monitor, events: Seq<MonitorEvent>)
    ensures
        monitor_after(monitor, events).last_tcp == monitor.last_tcp || exists|i: int|
            0 <= i < events.len() && #[trigger] events[i] == (MonitorEvent::TcpPacket {
                now: monitor_after(monitor, events).last_tcp,
            }),
        (forall|i: int| 0 <= i < events.len() ==> !(#[trigger] events[i] is TcpPacket))
            ==> monitor_after(monitor, events).last_tcp == monitor.last_tcp,
        monitor_after(monitor, events).config == monitor.config,
    decreases events.len(),
{
    if events.len() > 0 {
        let before = monitor_after(monitor, events.drop_last());
        let last = events.last();
        silence_lasts_until_the_server_speaks(monitor, events.drop_last());
        config_never_changes(before, last);
        if !(last is TcpPacket) {
            only_the_server_ends_its_silence(before, last);
        }
        let now = before.stepped(last).0;
        if now.last_tcp != before.last_tcp {
            assert(events[events.len() - 1] == (MonitorEvent::TcpPacket { now: now.last_tcp }));
        } else if now.last_tcp != monitor.last_tcp {
            let i = choose|i: int|
                0 <= i < events.drop_last().len() && #[trigger] events.drop_last()[i]
                    == (MonitorEvent::TcpPacket { now: before.last_tcp });
            assert(events[i] == events.drop_last()[i]);
        }
        if forall|i: int| 0 <= i < events.len() ==> !(#[trigger] events[i] is TcpPacket) {
            assert forall|i: int| 0 <= i < events.drop_last().len() implies !(
            #[trigger] events.drop_last()[i] is TcpPacket) by {
                assert(events.drop_last()[i] == events[i]);
            }
            assert(!(events[events.len() - 1] is TcpPacket));
        }
    }
}

/// However long packets go out, a server that stays silent for the timeout is given up: when the
/// monitor waits, packets were sent since the server's last word, and the timeout has passed
/// since then, the tick closes the connection as broken.
pub proof fn silent_server_is_given_up(monitor: Monitor, events: Seq<MonitorEvent>, now: u64)
    requires
        forall|i: int| 0 <= i < events.len() ==> !(#[trigger] events[i] is TcpPacket),
        monitor.config.active_timeout > 0,
        monitor_after(monitor, events).phase is Waiting,
        monitor_after(monitor, events).last_udp > monitor.last_tcp,
        now >= monitor.last_tcp + monitor.config.active_timeout,
    ensures
        monitor_after(monitor, events).stepped(MonitorEvent::Tick { now }).1 == (
        MonitorAction::Close { broken: true, remote: None }),
{
    silence_lasts_until_the_server_speaks(monitor, events);
    ticks_are_decided(monitor_after(monitor, events), now);
}

// ---- the dialer ----

/// A new dialer has failed at nothing, and may look the remote host up at once if it was given by
/// name: the first failure is followed by a lookup.
pub proof fn new_dialer_may_look_up_at_once(
    remote_is_domain: bool,
    sends_handshake: bool,
    start: u64,
    now: u64,
)
    requires
        10_000_000_000 <= start <= now,
    ensures
        ({
            let dialer = Dialer::started(remote_is_domain, sends_handshake, start);
            let packet = DialEvent::Packet { now, broken: false };
            let (dialing, first) = dialer.stepped(packet);
            let failure = DialEvent::Connected { now, connected: false };
            &&& dialer.remote_is_domain == remote_is_domain
            &&& dialer.sends_handshake == sends_handshake
            &&& dialer.failures == 0 && dialer.phase is Idle
            &&& dialer.last_lookup + 10_000_000_000 == start
            &&& first == (DialAction::Connect { change: None })
            &&& dialing.stepped(failure).1 == (if remote_is_domain {
                DialAction::Resolve
            } else {
                DialAction::GiveUp { broken: false }
            })
        }),
{
}

/// Two seconds have passed since the last lookup of a host that was given by name.
pub open spec fn may_ask(dialer: Dialer, now: u64) -> bool {
    dialer.remote_is_domain && now >= dialer.last_lookup + 2_000_000_000
}

/// A packet of a new client leads to an attempt to connect, or first to a lookup: where something
/// has failed before, the host was given by name and the last lookup is two seconds away.
pub proof fn packets_lead_to_attempts(dialer: Dialer, now: u64, broken: bool)
    requires
        dialer.phase is Idle,
    ensures
        ({
            let (next, action) = dialer.stepped(DialEvent::Packet { now, broken });
            if (broken || dialer.failures > 0) && may_ask(dialer, now) {
                &&& action == DialAction::Resolve
                &&& next == (Dialer { last_lookup: now, phase: DialPhase::Resolving, ..dialer })
            } else {
                &&& action == (DialAction::Connect { change: None })
                &&& next == (Dialer { phase: DialPhase::Connecting, ..dialer })
            }
        }),
{
}

/// Whatever the lookup before an attempt gave, the attempt is made: at another address if there is
/// one, else at the one in use.
pub proof fn lookup_never_prevents_an_attempt(
    dialer: Dialer,
    address: Option<Endpoint>,
    current: Endpoint,
)
    requires
        dialer.phase is Resolving,
    ensures
        ({
            let (next, action) = dialer.stepped(DialEvent::Resolved { address, current });
            &&& next == (Dialer { phase: DialPhase::Connecting, ..dialer })
            &&& action is Connect
            &&& action->change == (if address is Some && address->0 != current {
                address
            } else {
                None
            })
        }),
{
}

/// Every packet of a new client leads to an attempt to connect, with a lookup before it or not.
pub proof fn every_client_is_dialed(
    dialer: Dialer,
    now: u64,
    broken: bool,
    address: Option<Endpoint>,
    current: Endpoint,
)
    requires
        dialer.phase is Idle,
    ensures
        ({
            let (first, action) = dialer.stepped(DialEvent::Packet { now, broken });
            let (second, after) = first.stepped(DialEvent::Resolved { address, current });
            ||| action is Connect && first.phase is Connecting
            ||| action is Resolve && after is Connect && second.phase is Connecting
        }),
{
    packets_lead_to_attempts(dialer, now, broken);
    let first = dialer.stepped(DialEvent::Packet { now, broken }).0;
    if first.phase is Resolving {
        lookup_never_prevents_an_attempt(first, address, current);
    }
}

/// What the end of the first attempt comes to: a connection ends the row of failures; a failure is
/// counted, and is followed by a lookup where one may be made, else the packet is dropped.
pub proof fn first_attempts_are_judged(dialer: Dialer, now: u64, connected: bool)
    requires
        dialer.phase is Connecting,
        dialer.failures < u32::MAX,
    ensures
        ({
            let (next, action) = dialer.stepped(DialEvent::Connected { now, connected });
            if connected {
                &&& action == DialAction::ClearBroken
                &&& next == (Dialer { failures: 0, phase: DialPhase::Established, ..dialer })
            } else {
                &&& next.failures == dialer.failures + 1
                &&& next.remote_is_domain == dialer.remote_is_domain && next.sends_handshake
                    == dialer.sends_handshake
                &&& if may_ask(dialer, now) {
                    &&& action == DialAction::Resolve
                    &&& next.last_lookup == now
                    &&& next.phase is ResolvingAgain
                } else {
                    &&& action == (DialAction::GiveUp { broken: false })
                    &&& next.last_lookup == dialer.last_lookup
                    &&& next.phase is Idle
                }
            }
        }),
{
}

/// A second attempt is made exactly where the lookup after the first gave another address, and at
/// that address; it ends with a connection, which ends the row of failures, or with the packet
/// dropped.
pub proof fn second_attempts_are_judged(
    dialer: Dialer,
    address: Option<Endpoint>,
    current: Endpoint,
    now: u64,
    connected: bool,
)
    ensures
        dialer.phase is ResolvingAgain ==> dialer.stepped(
            DialEvent::Resolved { address, current },
        ) == (if address is Some && address->0 != current {
            (
                (Dialer { phase: DialPhase::Retrying, ..dialer }),
                (DialAction::Connect { change: address }),
            )
        } else {
            (
                (Dialer { phase: DialPhase::Idle, ..dialer }),
                (DialAction::GiveUp { broken: false }),
            )
        }),
        dialer.phase is Retrying ==> dialer.stepped(DialEvent::Connected { now, connected }) == (
        if connected {
            (
                (Dialer { failures: 0, phase: DialPhase::Established, ..dialer }),
                DialAction::ClearBroken,
            )
        } else {
            (
                (Dialer { phase: DialPhase::Idle, ..dialer }),
                (DialAction::GiveUp { broken: false }),
            )
        }),
{
}

/// Over a connection that stands, the handshake packet goes first if there is one, then the packet
/// of the client; the client is served once both were sent, and else the connection is broken.
pub proof fn packets_follow_the_handshake(dialer: Dialer, sent: bool)
    ensures
        dialer.phase is Established ==> dialer.stepped(DialEvent::Ready) == (
        if dialer.sends_handshake {
            ((Dialer { phase: DialPhase::Greeting, ..dialer }), DialAction::SendHandshake)
        } else {
            ((Dialer { phase: DialPhase::Forwarding, ..dialer }), DialAction::SendPacket)
        }),
        dialer.phase is Greeting ==> dialer.stepped(DialEvent::Sent { sent }) == (if sent {
            ((Dialer { phase: DialPhase::Forwarding, ..dialer }), DialAction::SendPacket)
        } else {
            (
                (Dialer { phase: DialPhase::Idle, ..dialer }),
                (DialAction::GiveUp { broken: true }),
            )
        }),
        dialer.phase is Forwarding ==> dialer.stepped(DialEvent::Sent { sent }) == (if sent {
            ((Dialer { phase: DialPhase::Idle, ..dialer }), DialAction::Serve)
        } else {
            (
                (Dialer { phase: DialPhase::Idle, ..dialer }),
                (DialAction::GiveUp { broken: true }),
            )
        }),
{
}

/// The dialer waits for the event.
pub open spec fn awaits(phase: DialPhase, event: DialEvent) -> bool {
    match event {
        DialEvent::Packet { .. } => phase is Idle,
        DialEvent::Resolved { .. } => phase is Resolving || phase is ResolvingAgain,
        DialEvent::Connected { .. } => phase is Connecting || phase is Retrying,
        DialEvent::Ready => phase is Established,
        DialEvent::Sent { .. } => phase is Greeting || phase is Forwarding,
    }
}

/// An event that the dialer does not wait for changes nothing, and every other calls for
/// something.
pub proof fn unawaited_events_are_ignored(dialer: Dialer, event: DialEvent)
    ensures
        !awaits(dialer.phase, event) ==> dialer.stepped(event) == (dialer, DialAction::Ignore),
        awaits(dialer.phase, event) ==> dialer.stepped(event).1 != DialAction::Ignore,
{
}

} // verus!
