//! Finding the interface in what the system says.

use phantun::command::{Outcome, Output, Request};
use phantun::interface::{detect_physical_interface, find_interface, Detection, Probe};

const HEADER: &str = "Iface\tDestination\tGateway \tFlags\tRefCnt\tUse\tMetric\tMask\t\tMTU\tWindow\tIRTT\n";

fn routes(rows: &[(&str, &str, &str, &str)]) -> String {
    let mut text = HEADER.to_string();
    for (iface, destination, metric, mask) in rows {
        text.push_str(&format!("{}\t{}\t0102A8C0\t0003\t0\t0\t{}\t{}\t0\t0\t0\n", iface, destination, metric, mask));
    }
    text
}

fn found(probe: Probe, text: &str) -> Option<String> {
    find_interface(probe, text)
}

fn answer(text: &str) -> Outcome<()> {
    Outcome::Finished(Output {
        success: true,
        status: String::new(),
        stdout: text.as_bytes().to_vec(),
        stderr: Vec::new(),
    })
}

#[test]
fn lowest_metric_wins() {
    let text = routes(&[
        ("wlan0", "00000000", "600", "00000000"),
        ("eth0", "00000000", "100", "00000000"),
        ("eth1", "00000000", "100", "00000000"),
        ("eth2", "0002A8C0", "1", "00FFFFFF"),
    ]);
    assert_eq!(found(Probe::RouteTable, &text), Some("eth0".to_string()));
}

#[test]
fn metric_that_is_no_number_counts_as_zero() {
    let text = routes(&[("eth0", "00000000", "1", "00000000"), ("eth1", "00000000", "none", "00000000")]);
    assert_eq!(found(Probe::RouteTable, &text), Some("eth1".to_string()));
}

#[test]
fn highest_metric_is_no_route() {
    let text = routes(&[("eth0", "00000000", "4294967295", "00000000")]);
    assert_eq!(found(Probe::RouteTable, &text), None);
    let text = routes(&[("eth0", "00000000", "4294967294", "00000000")]);
    assert_eq!(found(Probe::RouteTable, &text), Some("eth0".to_string()));
}

#[test]
fn default_route_has_zero_destination_and_mask() {
    let text = routes(&[("eth0", "00000000", "0", "00FFFFFF"), ("eth1", "0002A8C0", "0", "00000000")]);
    assert_eq!(found(Probe::RouteTable, &text), None);
}

#[test]
fn short_lines_and_the_header_are_no_routes() {
    assert_eq!(found(Probe::RouteTable, ""), None);
    assert_eq!(found(Probe::RouteTable, "eth0 00000000 0 0 0 0 0 00000000\n"), None);
    assert_eq!(found(Probe::RouteTable, "header\neth0 00000000 0 0 0 0 0\n"), None);
    assert_eq!(
        found(Probe::RouteTable, "header\neth0 00000000 0 0 0 0 0 00000000"),
        Some("eth0".to_string())
    );
}

#[test]
fn default_route_names_the_device() {
    let text = "default via 192.168.2.1 dev wlp3s0 proto dhcp metric 600\n";
    assert_eq!(found(Probe::DefaultRoute, text), Some("wlp3s0".to_string()));
    assert_eq!(found(Probe::DefaultRoute, "default via 10.0.0.1 dev"), None);
    assert_eq!(found(Probe::DefaultRoute, "dev dev eth0"), Some("dev".to_string()));
    assert_eq!(found(Probe::DefaultRoute, ""), None);
}

#[test]
fn first_physical_device_is_taken() {
    let text = "Inter-|   Receive\n face |bytes\n    lo: 1 2\n  tun0: 1 2\ndocker0: 1\n veth12: 1\n test1: 1\nno colon\n  ens3:  7 8\n  eth1: 1\n";
    assert_eq!(found(Probe::DeviceTable, text), Some("ens3".to_string()));
    assert_eq!(found(Probe::DeviceTable, "a\nb\n    lo: 1 2\n"), None);
    let bridged = "a\nb\n    lo: 0 0\nvirbr0: 0 0\n  eth0: 0 0\n";
    assert_eq!(found(Probe::DeviceTable, bridged), Some("eth0".to_string()));
    for name in ["br-1a2b", "tap3", "vnet0", "wg0", "dummy0", "virbr0-nic", "lxcbr0", "cni0", "vxlan.calico"] {
        assert_eq!(found(Probe::DeviceTable, &format!("a\nb\n{}: 1\n", name)), None);
    }
    assert_eq!(found(Probe::DeviceTable, "a\nb\nbr0: 1\n"), Some("br0".to_string()));
    assert_eq!(found(Probe::DeviceTable, "eth0: 1\neth1: 2\n"), None);
}

#[test]
fn sources_are_asked_in_turn() {
    let nothing: Outcome<()> = Outcome::Failed { not_found: true, error: () };
    match detect_physical_interface(Probe::RouteTable, nothing) {
        Detection::Next(probe) => assert_eq!(probe, Probe::DefaultRoute),
        other => panic!("unexpected {:?}", other),
    }
    match detect_physical_interface(Probe::DefaultRoute, answer("unreachable")) {
        Detection::Next(probe) => assert_eq!(probe, Probe::DeviceTable),
        other => panic!("unexpected {:?}", other),
    }
    match detect_physical_interface(Probe::DeviceTable, answer("a\nb\n")) {
        Detection::Nothing => {}
        other => panic!("unexpected {:?}", other),
    }
    match detect_physical_interface(Probe::DefaultRoute, answer("default dev eth7")) {
        Detection::Found(name) => assert_eq!(name, "eth7"),
        other => panic!("unexpected {:?}", other),
    }
}

#[test]
fn failed_command_names_no_interface() {
    let outcome: Outcome<()> = Outcome::Finished(Output {
        success: false,
        status: "exit status: 1".to_string(),
        stdout: b"default dev eth7".to_vec(),
        stderr: Vec::new(),
    });
    match detect_physical_interface(Probe::DefaultRoute, outcome) {
        Detection::Next(probe) => assert_eq!(probe, Probe::DeviceTable),
        other => panic!("unexpected {:?}", other),
    }
}

#[test]
fn bytes_that_are_no_text_are_replaced_in_names() {
    let outcome: Outcome<()> = Outcome::Finished(Output {
        success: true,
        status: String::new(),
        stdout: b"default dev et\xffh".to_vec(),
        stderr: Vec::new(),
    });
    match detect_physical_interface(Probe::DefaultRoute, outcome) {
        Detection::Found(name) => assert_eq!(name, "et\u{fffd}h"),
        other => panic!("unexpected {:?}", other),
    }
}

#[test]
fn requests_of_the_sources() {
    match Probe::RouteTable.request() {
        Request::ReadFile(path) => assert_eq!(path, "/proc/net/route"),
        other => panic!("unexpected {:?}", other),
    }
    match Probe::DefaultRoute.request() {
        Request::Run { program, args } => {
            assert_eq!(program, "ip");
            assert_eq!(args, vec!["route", "show", "default"]);
        }
        other => panic!("unexpected {:?}", other),
    }
    match Probe::DeviceTable.request() {
        Request::ReadFile(path) => assert_eq!(path, "/proc/net/dev"),
        other => panic!("unexpected {:?}", other),
    }
}
