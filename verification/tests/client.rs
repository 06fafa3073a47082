//! The decisions of the client: addresses, handshake packets, dialing and watching.

use phantun::clock::{elapsed, SECOND};
use phantun::dial::{DialAction, DialEvent, DialPhase, Dialer};
use phantun::endpoint::{
    address_change, bind_endpoint, ipv6_to_assign, resolve_remote, Endpoint, IpAddress,
};
use phantun::handshake::{filters_handshake, is_forwarded, is_handshake_banner};
use phantun::monitor::{Monitor, MonitorAction, MonitorConfig, MonitorEvent, MonitorPhase};

const LOCALHOST: u32 = 0x7f00_0001;

fn v4(ip: u32) -> Endpoint {
    Endpoint::V4 { ip, port: 4567 }
}

fn v6(ip6: u128) -> Endpoint {
    Endpoint::V6 { ip6, port: 4567, flowinfo: 3, scope_id: 9 }
}

#[test]
fn test_resolve_remote_domain() {
    // 127.0.0.1:4567 is looked up as itself
    let resolved = resolve_remote(Some(&vec![v4(LOCALHOST)]), true);
    assert_eq!(resolved, Some(v4(LOCALHOST)));

    // localhost:4567 may have an IPv6 address too
    let resolved_local = resolve_remote(Some(&vec![v6(1), v4(LOCALHOST)]), true);
    assert!(resolved_local.is_some());
    assert!(resolved_local.unwrap().is_ipv4());
    assert_eq!(resolved_local.unwrap(), Endpoint::V4 { ip: LOCALHOST, port: 4567 });
}

#[test]
fn first_eligible_address_is_taken() {
    assert_eq!(resolve_remote(Some(&vec![v6(1), v4(2), v4(3)]), false), Some(v6(1)));
    assert_eq!(resolve_remote(Some(&vec![v6(1), v4(2), v4(3)]), true), Some(v4(2)));
    assert_eq!(resolve_remote(Some(&vec![v6(1)]), true), None);
    assert_eq!(resolve_remote(Some(&vec![]), false), None);
    assert_eq!(resolve_remote(None, false), None);
    assert!(v6(1).is_ipv6() && !v6(1).is_ipv4() && !v4(1).is_ipv6());
}

#[test]
fn address_changes_only_to_another() {
    assert_eq!(address_change(v4(1), Some(v4(2))), Some(v4(2)));
    assert_eq!(address_change(v4(1), Some(v4(1))), None);
    assert_eq!(address_change(v4(1), None), None);
    let moved = Endpoint::V4 { ip: 1, port: 4568 };
    assert_eq!(address_change(v4(1), Some(moved)), Some(moved));
}

#[test]
fn answers_leave_from_the_address_that_was_used() {
    assert_eq!(
        bind_endpoint(v4(7), IpAddress::V4(8), 1234),
        Endpoint::V4 { ip: 8, port: 1234 }
    );
    assert_eq!(
        bind_endpoint(v6(7), IpAddress::V6(8), 1234),
        Endpoint::V6 { ip6: 8, port: 1234, flowinfo: 3, scope_id: 9 }
    );
}

#[test]
fn ipv6_addresses_are_assigned_once() {
    assert_eq!(ipv6_to_assign(v6(1), false, Some(2), Some(3)), Some((2, 3)));
    assert_eq!(ipv6_to_assign(v6(1), true, Some(2), Some(3)), None);
    assert_eq!(ipv6_to_assign(v4(1), false, Some(2), Some(3)), None);
    assert_eq!(ipv6_to_assign(v6(1), false, None, Some(3)), None);
    assert_eq!(ipv6_to_assign(v6(1), false, Some(2), None), None);
}

#[test]
fn handshake_packets_are_filtered() {
    assert!(filters_handshake(true, false) && filters_handshake(false, true));
    assert!(!filters_handshake(false, false));
    let own: Option<&[u8]> = Some(b"hello");
    assert!(is_handshake_banner(true, b"SSH-2.0-OpenSSH", None));
    assert!(is_handshake_banner(true, b"SSH-", None));
    assert!(!is_handshake_banner(true, b"SSH", None));
    assert!(!is_handshake_banner(true, b"ssh-2.0", None));
    assert!(!is_handshake_banner(false, b"SSH-2.0", own));
    assert!(is_handshake_banner(true, b"hello", own));
    assert!(!is_handshake_banner(true, b"hello!", own));
    assert!(!is_handshake_banner(true, b"hell", own));
    assert!(is_forwarded(true, b"hello!", own));
    assert!(!is_forwarded(true, b"hello", own));
    assert!(is_forwarded(false, b"hello", own));
    assert!(!is_forwarded(false, b"", None));
}

#[test]
fn time_that_lies_ahead_has_not_passed() {
    assert_eq!(elapsed(5, 3), 2);
    assert_eq!(elapsed(3, 3), 0);
    assert_eq!(elapsed(3, 5), 0);
}

const START: u64 = 100 * SECOND;

#[test]
fn first_attempt_connects_without_a_lookup() {
    let mut dialer = Dialer::new(true, false, START);
    let packet = DialEvent::Packet { now: START, broken: false };
    assert_eq!(dialer.step(packet), DialAction::Connect { change: None });
    let connected = DialEvent::Connected { now: START, connected: true };
    assert_eq!(dialer.step(connected), DialAction::ClearBroken);
    assert_eq!(dialer.step(DialEvent::Ready), DialAction::SendPacket);
    assert_eq!(dialer.step(DialEvent::Sent { sent: true }), DialAction::Serve);
    assert_eq!(dialer.phase, DialPhase::Idle);
    assert_eq!(dialer.failures, 0);
}

#[test]
fn handshake_packet_is_sent_first() {
    let mut dialer = Dialer::new(false, true, START);
    dialer.step(DialEvent::Packet { now: START, broken: false });
    dialer.step(DialEvent::Connected { now: START, connected: true });
    assert_eq!(dialer.step(DialEvent::Ready), DialAction::SendHandshake);
    assert_eq!(dialer.step(DialEvent::Sent { sent: true }), DialAction::SendPacket);
    assert_eq!(dialer.step(DialEvent::Sent { sent: false }), DialAction::GiveUp { broken: true });

    let mut dialer = Dialer::new(false, true, START);
    dialer.step(DialEvent::Packet { now: START, broken: false });
    dialer.step(DialEvent::Connected { now: START, connected: true });
    dialer.step(DialEvent::Ready);
    assert_eq!(dialer.step(DialEvent::Sent { sent: false }), DialAction::GiveUp { broken: true });
    assert_eq!(dialer.phase, DialPhase::Idle);
}

#[test]
fn broken_state_looks_the_host_up_first() {
    let mut dialer = Dialer::new(true, false, START);
    assert_eq!(dialer.step(DialEvent::Packet { now: START, broken: true }), DialAction::Resolve);
    let resolved = DialEvent::Resolved { address: Some(v4(2)), current: v4(1) };
    assert_eq!(dialer.step(resolved), DialAction::Connect { change: Some(v4(2)) });
    // The attempt fails less than two seconds after the lookup: no second lookup.
    let failed = DialEvent::Connected { now: START + SECOND, connected: false };
    assert_eq!(dialer.step(failed), DialAction::GiveUp { broken: false });
    assert_eq!(dialer.failures, 1);
    // The next packet comes too early for a lookup, the one after that does not.
    let early = DialEvent::Packet { now: START + SECOND, broken: false };
    assert_eq!(dialer.step(early), DialAction::Connect { change: None });
    let failed = DialEvent::Connected { now: START + 2 * SECOND - 1, connected: false };
    assert_eq!(dialer.step(failed), DialAction::GiveUp { broken: false });
    assert_eq!(dialer.failures, 2);
    let late = DialEvent::Packet { now: START + 2 * SECOND, broken: false };
    assert_eq!(dialer.step(late), DialAction::Resolve);
}

#[test]
fn failed_attempt_is_repeated_at_a_new_address() {
    let mut dialer = Dialer::new(true, false, START);
    dialer.step(DialEvent::Packet { now: START, broken: false });
    let failed = DialEvent::Connected { now: START + 3 * SECOND, connected: false };
    assert_eq!(dialer.step(failed), DialAction::Resolve);
    let resolved = DialEvent::Resolved { address: Some(v4(2)), current: v4(1) };
    assert_eq!(dialer.step(resolved), DialAction::Connect { change: Some(v4(2)) });
    let connected = DialEvent::Connected { now: START + 4 * SECOND, connected: true };
    assert_eq!(dialer.step(connected), DialAction::ClearBroken);
    assert_eq!(dialer.failures, 0);
}

#[test]
fn failed_attempt_is_given_up_at_the_same_address() {
    let mut dialer = Dialer::new(true, false, START);
    dialer.step(DialEvent::Packet { now: START, broken: false });
    dialer.step(DialEvent::Connected { now: START, connected: false });
    let resolved = DialEvent::Resolved { address: Some(v4(1)), current: v4(1) };
    assert_eq!(dialer.step(resolved), DialAction::GiveUp { broken: false });
    assert_eq!(dialer.failures, 1);

    let mut dialer = Dialer::new(true, false, START);
    dialer.step(DialEvent::Packet { now: START, broken: false });
    dialer.step(DialEvent::Connected { now: START, connected: false });
    dialer.step(DialEvent::Resolved { address: Some(v4(2)), current: v4(1) });
    let failed = DialEvent::Connected { now: START, connected: false };
    assert_eq!(dialer.step(failed), DialAction::GiveUp { broken: false });
    assert_eq!(dialer.failures, 1);
}

#[test]
fn host_given_by_address_is_never_looked_up() {
    let mut dialer = Dialer::new(false, false, START);
    let packet = DialEvent::Packet { now: START, broken: true };
    assert_eq!(dialer.step(packet), DialAction::Connect { change: None });
    let failed = DialEvent::Connected { now: START + 9 * SECOND, connected: false };
    assert_eq!(dialer.step(failed), DialAction::GiveUp { broken: false });
    assert_eq!(dialer.failures, 1);
}

#[test]
fn unexpected_events_are_ignored() {
    let mut dialer = Dialer::new(true, false, START);
    assert_eq!(dialer.step(DialEvent::Ready), DialAction::Ignore);
    assert_eq!(dialer.step(DialEvent::Sent { sent: true }), DialAction::Ignore);
    assert_eq!(dialer.phase, DialPhase::Idle);
}

fn config() -> MonitorConfig {
    MonitorConfig {
        active_timeout: 0,
        keepalive_time: None,
        keepalive_interval: 5 * SECOND,
        keepalive_retries: 3,
        remote_is_domain: false,
        idle_timeout: 180 * SECOND,
    }
}

fn monitor(config: MonitorConfig) -> Monitor {
    Monitor::new(config, START, START + 1, START + 2, START + 3, START + 4)
}

fn tick(seconds: u64) -> MonitorEvent {
    MonitorEvent::Tick { now: START + seconds * SECOND }
}

const BROKEN: MonitorAction = MonitorAction::Close { broken: true, remote: None };
const IDLE: MonitorAction = MonitorAction::Close { broken: false, remote: None };

#[test]
fn idle_connection_is_closed() {
    let mut watched = monitor(config());
    assert_eq!(watched.step(tick(180)), MonitorAction::Wait);
    assert_eq!(watched.step(tick(181)), IDLE);
    assert_eq!(watched.phase, MonitorPhase::Closed);
    assert_eq!(watched.step(tick(500)), MonitorAction::Wait);
}

#[test]
fn traffic_keeps_a_connection_open() {
    let mut watched = monitor(config());
    let data = MonitorEvent::Data { now: START + 100 * SECOND };
    assert_eq!(watched.step(data), MonitorAction::Wait);
    assert_eq!(watched.step(tick(279)), MonitorAction::Wait);
    assert_eq!(watched.step(tick(280)), IDLE);
}

#[test]
fn silent_server_breaks_an_active_connection() {
    let mut watched = monitor(MonitorConfig { active_timeout: 30 * SECOND, ..config() });
    assert_eq!(watched.step(tick(29)), MonitorAction::Wait);
    assert_eq!(watched.step(tick(30)), BROKEN);

    // An answer after the last packet shows that the server is there.
    let mut watched = monitor(MonitorConfig { active_timeout: 30 * SECOND, ..config() });
    watched.step(MonitorEvent::TcpPacket { now: START + 2 });
    assert_eq!(watched.step(tick(60)), MonitorAction::Wait);
    watched.step(MonitorEvent::UdpPacket { now: START + 61 * SECOND });
    assert_eq!(watched.step(tick(62)), BROKEN);
}

#[test]
fn zero_timeout_never_breaks_a_connection() {
    let mut watched = monitor(config());
    assert_eq!(watched.step(tick(179)), MonitorAction::Wait);
}

#[test]
fn probes_are_sent_and_run_out() {
    let mut watched = monitor(MonitorConfig { keepalive_time: Some(10 * SECOND), ..config() });
    assert_eq!(watched.step(tick(9)), MonitorAction::Wait);
    for attempt in 0..3 {
        let at = 10 + 5 * attempt;
        assert_eq!(watched.step(tick(at)), MonitorAction::SendProbe);
        let sent = MonitorEvent::ProbeSent { now: START + at * SECOND };
        assert_eq!(watched.step(sent), MonitorAction::Wait);
        assert_eq!(watched.step(tick(at + 4)), MonitorAction::Wait);
    }
    assert_eq!(watched.probes_sent, 3);
    assert_eq!(watched.step(tick(25)), BROKEN);
}

#[test]
fn answer_gives_the_retries_back() {
    let mut watched = monitor(MonitorConfig { keepalive_time: Some(10 * SECOND), ..config() });
    watched.step(tick(10));
    watched.step(MonitorEvent::ProbeSent { now: START + 10 * SECOND });
    assert_eq!(watched.probes_sent, 1);
    watched.step(MonitorEvent::TcpPacket { now: START + 11 * SECOND });
    assert_eq!(watched.probes_sent, 0);
    assert_eq!(watched.step(tick(20)), MonitorAction::Wait);
    assert_eq!(watched.step(tick(21)), MonitorAction::SendProbe);
}

#[test]
fn changed_address_closes_a_silent_connection() {
    let mut watched = monitor(MonitorConfig { remote_is_domain: true, ..config() });
    assert_eq!(watched.step(tick(9)), MonitorAction::Wait);
    assert_eq!(watched.step(tick(10)), MonitorAction::Resolve);
    let same = MonitorEvent::Resolved { address: Some(v4(1)), current: v4(1) };
    assert_eq!(watched.step(same), MonitorAction::Wait);
    assert_eq!(watched.step(tick(14)), MonitorAction::Wait);
    assert_eq!(watched.step(tick(15)), MonitorAction::Resolve);
    assert_eq!(
        watched.step(MonitorEvent::Resolved { address: None, current: v4(1) }),
        MonitorAction::Wait
    );
    assert_eq!(watched.step(tick(20)), MonitorAction::Resolve);
    let moved = MonitorEvent::Resolved { address: Some(v4(2)), current: v4(1) };
    assert_eq!(watched.step(moved), MonitorAction::Close { broken: true, remote: Some(v4(2)) });
}

#[test]
fn probe_and_lookup_share_a_tick() {
    let both = MonitorConfig { keepalive_time: Some(10 * SECOND), remote_is_domain: true, ..config() };
    let mut watched = monitor(both);
    assert_eq!(watched.step(tick(10)), MonitorAction::SendProbe);
    let sent = MonitorEvent::ProbeSent { now: START + 10 * SECOND + 5 };
    assert_eq!(watched.step(sent), MonitorAction::Resolve);
    assert_eq!(watched.last_lookup, START + 10 * SECOND);
    assert_eq!(watched.last_probe, START + 10 * SECOND + 5);
}

#[test]
fn lookup_at_the_end_of_an_idle_connection() {
    let mut watched = monitor(MonitorConfig { remote_is_domain: true, ..config() });
    assert_eq!(watched.step(tick(200)), MonitorAction::Resolve);
    let none = MonitorEvent::Resolved { address: None, current: v4(1) };
    assert_eq!(watched.step(none), IDLE);
}

#[test]
fn worker_that_gives_up_breaks_the_connection() {
    let mut watched = monitor(config());
    assert_eq!(watched.step(MonitorEvent::Quit), BROKEN);
    assert_eq!(watched.step(MonitorEvent::Quit), MonitorAction::Wait);
}
