//! Setups and removals on a machine that keeps its rules in memory.

use phantun::command::{
    execute_nft, list_chain, list_table, nft_request, NftError, Outcome, Output, Request,
};
use phantun::guard::{NftRule, NftRuleGuard};
use phantun::interface::{detect_physical_interface, Detection, Probe};
use phantun::listing::get_chain_rule_handles;
use phantun::removal::Removal;
use phantun::setup::{Progress, Setup};

const ROUTES: &str = "Iface\tDestination\tGateway \tFlags\tRefCnt\tUse\tMetric\tMask\t\tMTU\tWindow\tIRTT\n\
eth0\t00000000\t0102A8C0\t0003\t0\t0\t100\t00000000\t0\t0\t0\n\
eth0\t0002A8C0\t00000000\t0001\t0\t0\t100\t00FFFFFF\t0\t0\t0\n";

struct Chain {
    name: String,
    handle: u64,
    definition: String,
    rules: Vec<(u64, String)>,
}

/// A machine with one table of rules and one default route.
struct Machine {
    chains: Option<Vec<Chain>>,
    next_handle: u64,
    routes: String,
    log: Vec<String>,
}

fn finished(success: bool, stdout: &str, stderr: &str) -> Outcome<String> {
    Outcome::Finished(Output {
        success,
        status: (if success { "exit status: 0" } else { "exit status: 1" }).to_string(),
        stdout: stdout.as_bytes().to_vec(),
        stderr: stderr.as_bytes().to_vec(),
    })
}

/// The rule as a listing writes it: marks have eight digits.
fn listed(rule: &str) -> String {
    match rule.rfind("mark set 0x") {
        Some(at) => {
            let (before, digits) = rule.split_at(at + 11);
            format!("{}{:08x}", before, u32::from_str_radix(digits, 16).unwrap())
        }
        None => rule.to_string(),
    }
}

impl Machine {
    fn new() -> Machine {
        Machine { chains: None, next_handle: 1, routes: ROUTES.to_string(), log: Vec::new() }
    }

    fn handle(&mut self) -> u64 {
        let handle = self.next_handle;
        self.next_handle += 1;
        handle
    }

    fn show(chain: &Chain, handles: bool) -> String {
        let mut text = format!("\tchain {} {{", chain.name);
        if handles {
            text.push_str(&format!(" # handle {}", chain.handle));
        }
        text.push_str(&format!("\n\t\t{}\n", chain.definition));
        for (handle, rule) in &chain.rules {
            text.push_str(&format!("\t\t{}", rule));
            if handles {
                text.push_str(&format!(" # handle {}", handle));
            }
            text.push('\n');
        }
        text.push_str("\t}\n");
        text
    }

    fn nft(&mut self, args: &[&str]) -> Outcome<String> {
        let missing = || finished(false, "", "Error: No such file or directory\n");
        match args {
            ["add", "table", "inet", "phantun"] => {
                if self.chains.is_none() {
                    self.chains = Some(Vec::new());
                }
                finished(true, "", "")
            }
            ["add", "chain", "inet", "phantun", name, definition] => {
                let handle = self.handle();
                match &mut self.chains {
                    None => missing(),
                    Some(chains) => {
                        if !chains.iter().any(|c| c.name == *name) {
                            let inner = definition.trim_start_matches('{').trim_end_matches('}');
                            chains.push(Chain {
                                name: name.to_string(),
                                handle,
                                definition: inner.trim().to_string(),
                                rules: Vec::new(),
                            });
                        }
                        finished(true, "", "")
                    }
                }
            }
            ["add", "rule", "inet", "phantun", name, rule] => {
                let handle = self.handle();
                let chain = self.chains.iter_mut().flatten().find(|c| c.name == *name);
                match chain {
                    None => missing(),
                    Some(chain) => {
                        chain.rules.push((handle, listed(rule)));
                        finished(true, "", "")
                    }
                }
            }
            ["-a", "list", "chain", "inet", "phantun", name] => {
                let chain = self.chains.iter().flatten().find(|c| c.name == *name);
                match chain {
                    None => missing(),
                    Some(chain) => {
                        let text = format!("table inet phantun {{\n{}}}\n", Machine::show(chain, true));
                        finished(true, &text, "")
                    }
                }
            }
            ["list", "table", "inet", "phantun"] => match &self.chains {
                None => missing(),
                Some(chains) => {
                    let shown: Vec<String> = chains.iter().map(|c| Machine::show(c, false)).collect();
                    let text = format!("table inet phantun {{\n{}}}\n", shown.join("\n"));
                    finished(true, &text, "")
                }
            },
            ["delete", "rule", "inet", "phantun", name, "handle", handle] => {
                let chain = self.chains.iter_mut().flatten().find(|c| c.name == *name);
                match chain {
                    None => missing(),
                    Some(chain) => {
                        let before = chain.rules.len();
                        chain.rules.retain(|(h, _)| h.to_string() != *handle);
                        if chain.rules.len() < before {
                            finished(true, "", "")
                        } else {
                            missing()
                        }
                    }
                }
            }
            ["delete", "chain", "inet", "phantun", name] => {
                let busy = self.chains.iter().flatten().any(|c| c.name == *name && !c.rules.is_empty());
                match &mut self.chains {
                    Some(chains) if !busy => {
                        chains.retain(|c| c.name != *name);
                        finished(true, "", "")
                    }
                    _ => missing(),
                }
            }
            ["delete", "table", "inet", "phantun"] => {
                self.chains = None;
                finished(true, "", "")
            }
            _ => panic!("unexpected nft arguments: {:?}", args),
        }
    }

    fn perform(&mut self, request: &Request) -> Outcome<String> {
        match request {
            Request::ReadFile(path) => {
                self.log.push(format!("read {}", path));
                if path == "/proc/net/route" {
                    let routes = self.routes.clone();
                    finished(true, &routes, "")
                } else {
                    Outcome::Failed { not_found: true, error: path.clone() }
                }
            }
            Request::Run { program, args } => {
                let args: Vec<&str> = args.iter().map(|a| a.as_str()).collect();
                self.log.push(format!("{} {}", program, args.join(" ")));
                if program == "nft" {
                    self.nft(&args)
                } else {
                    Outcome::Failed { not_found: true, error: program.clone() }
                }
            }
        }
    }

    fn detect(&mut self) -> Option<String> {
        let mut probe = Probe::RouteTable;
        loop {
            let outcome = self.perform(&probe.request());
            match detect_physical_interface(probe, outcome) {
                Detection::Found(name) => return Some(name),
                Detection::Next(next) => probe = next,
                Detection::Nothing => return None,
            }
        }
    }

    fn install(&mut self, setup: Setup) -> Result<NftRuleGuard, NftError<String>> {
        let mut setup = setup;
        loop {
            let outcome = self.perform(&setup.request());
            match setup.resume(outcome) {
                Progress::Continue(next) => setup = next,
                Progress::Done(guard) => return Ok(guard),
                Progress::Failed { error, removal, .. } => {
                    self.finish(removal);
                    return Err(error);
                }
            }
        }
    }

    fn remove(&mut self, guard: &mut NftRuleGuard) {
        let removal = guard.remove_rules();
        self.finish(removal);
    }

    fn finish(&mut self, removal: Removal) {
        let mut removal = removal;
        while let Some(request) = removal.request() {
            let outcome = self.perform(&request);
            removal = removal.resume(outcome);
        }
    }

    fn handles<F: Fn(&str) -> bool>(&mut self, chain: &str, predicate: &F) -> Vec<u64> {
        let outcome = self.perform(&nft_request(list_chain(chain)));
        get_chain_rule_handles(outcome, predicate).expect("Failed to query handles")
    }

    fn table(&mut self) -> Option<String> {
        match self.perform(&nft_request(list_table())) {
            Outcome::Finished(output) if output.success => {
                Some(String::from_utf8_lossy(&output.stdout).into_owned())
            }
            _ => None,
        }
    }
}

#[test]
fn test_detect_physical_interface() {
    let iface = Machine::new().detect();
    assert!(iface.is_some(), "Expected to detect physical interface");
    let iface_name = iface.unwrap();
    assert!(!iface_name.is_empty());
    assert_ne!(iface_name, "lo");
    assert_eq!(iface_name, "eth0");
}

#[test]
fn test_client_nftables_lifecycle() {
    let mut machine = Machine::new();
    let test_tun = "tun_test_c";
    let iface = machine.detect();

    // 1. Setup client
    let mut guard = machine
        .install(NftRuleGuard::setup_client(test_tun, iface.as_deref(), None))
        .expect("Failed to setup client nftables");
    assert!(!guard.rules.is_empty(), "Expected rules to be registered");

    // Verify rule exists in nft
    let handles = machine.handles("postrouting", &|r: &str| r.contains(test_tun));
    assert_eq!(handles.len(), 1);

    // 2. Setup client again with same parameters (test idempotency)
    let mut guard2 = machine
        .install(NftRuleGuard::setup_client(test_tun, iface.as_deref(), None))
        .expect("Failed to setup client nftables second time");
    let handles2 = machine.handles("postrouting", &|r: &str| r.contains(test_tun));
    assert_eq!(handles2.len(), 1, "Idempotent setup should not create duplicate rules");

    // 3. Remove rules
    guard2.removed = true; // Avoid double delete of same handle in this test
    machine.remove(&mut guard);

    let handles_after = machine.handles("postrouting", &|r: &str| r.contains(test_tun));
    assert!(handles_after.is_empty(), "Rule should have been removed");
}

#[test]
fn test_server_nftables_lifecycle() {
    let mut machine = Machine::new();
    let test_port = 59876;
    let test_tun = "tun_test_s";
    let tun_peer = "192.168.201.2";
    let tun_peer6 = Some("fcc9::2");
    let iface = machine.detect();

    // 1. Setup server
    let mut guard = machine
        .install(NftRuleGuard::setup_server(test_port, test_tun, tun_peer, tun_peer6, iface.as_deref(), None))
        .expect("Failed to setup server nftables");
    assert_eq!(guard.rules.len(), 2, "Expected IPv4 and IPv6 rules");

    // Verify rules exist in nft
    let port_str = test_port.to_string();
    let handles = machine.handles("prerouting", &|r: &str| r.contains(&port_str));
    assert_eq!(handles.len(), 2);

    // 2. Setup server again (idempotency)
    let mut guard2 = machine
        .install(NftRuleGuard::setup_server(test_port, test_tun, tun_peer, tun_peer6, iface.as_deref(), None))
        .expect("Failed to setup server nftables second time");
    let handles2 = machine.handles("prerouting", &|r: &str| r.contains(&port_str));
    assert_eq!(handles2.len(), 2, "Idempotent setup should not create duplicate rules");

    // 3. Remove rules
    guard2.removed = true;
    machine.remove(&mut guard);

    let handles_after = machine.handles("prerouting", &|r: &str| r.contains(&port_str));
    assert!(handles_after.is_empty(), "Rules should have been removed");
}

#[test]
fn test_fwmark_lifecycle() {
    let mut machine = Machine::new();
    let test_tun = "tun_test_fwm";
    let test_mark = 0x100;
    let iface = machine.detect();

    // Setup client with fwmark
    let mut guard = machine
        .install(NftRuleGuard::setup_client(test_tun, iface.as_deref(), Some(test_mark)))
        .expect("Failed to setup client with fwmark");
    assert_eq!(guard.rules.len(), 2, "Expected masquerade and fwmark rules");

    // Verify fwmark rule in prerouting_mangle
    let marked = |r: &str| r.contains(test_tun) && r.contains("0x00000100");
    let handles = machine.handles("prerouting_mangle", &marked);
    assert_eq!(handles.len(), 1);

    // Setup second time (idempotency)
    let mut guard2 = machine
        .install(NftRuleGuard::setup_client(test_tun, iface.as_deref(), Some(test_mark)))
        .expect("Failed to setup client second time with fwmark");
    let handles2 = machine.handles("prerouting_mangle", &marked);
    assert_eq!(handles2.len(), 1);

    guard2.removed = true;
    machine.remove(&mut guard);

    let handles_after = machine.handles("prerouting_mangle", &|r: &str| r.contains(test_tun));
    assert!(handles_after.is_empty(), "Fwmark rule should have been removed");
}

#[test]
fn test_coexistence_and_cleanup() {
    let mut machine = Machine::new();
    let test_tun = "tun_test_coex";
    let test_port = 59877;
    let tun_peer = "192.168.201.2";
    let iface = machine.detect();

    let mut client_guard = machine
        .install(NftRuleGuard::setup_client(test_tun, iface.as_deref(), None))
        .expect("Failed to setup client");
    let mut server_guard = machine
        .install(NftRuleGuard::setup_server(test_port, test_tun, tun_peer, None, iface.as_deref(), None))
        .expect("Failed to setup server");

    // Both client and server rules exist
    let port_str = test_port.to_string();
    assert_eq!(machine.handles("postrouting", &|r: &str| r.contains(test_tun)).len(), 1);
    assert_eq!(machine.handles("prerouting", &|r: &str| r.contains(&port_str)).len(), 1);

    // Remove client: server rules should still exist
    machine.remove(&mut client_guard);
    assert_eq!(machine.handles("postrouting", &|r: &str| r.contains(test_tun)).len(), 0);
    assert_eq!(machine.handles("prerouting", &|r: &str| r.contains(&port_str)).len(), 1);

    // Remove server: now both are cleaned up
    machine.remove(&mut server_guard);
    assert_eq!(machine.handles("prerouting", &|r: &str| r.contains(&port_str)).len(), 0);
}

#[test]
fn test_multiple_servers_coexistence() {
    let mut machine = Machine::new();
    let port1 = 59878;
    let port2 = 59879;
    let tun_peer = "192.168.201.2";
    let iface = machine.detect();

    let mut server1 = machine
        .install(NftRuleGuard::setup_server(port1, "tun_test_s1", tun_peer, None, iface.as_deref(), None))
        .expect("Failed to setup server 1");
    let mut server2 = machine
        .install(NftRuleGuard::setup_server(port2, "tun_test_s2", tun_peer, None, iface.as_deref(), None))
        .expect("Failed to setup server 2");

    let port1_str = port1.to_string();
    let port2_str = port2.to_string();

    assert_eq!(machine.handles("prerouting", &|r: &str| r.contains(&port1_str)).len(), 1);
    assert_eq!(machine.handles("prerouting", &|r: &str| r.contains(&port2_str)).len(), 1);

    // Stopping server 1 MUST NOT remove server 2's rules or flush the table/chain
    machine.remove(&mut server1);

    assert_eq!(
        machine.handles("prerouting", &|r: &str| r.contains(&port1_str)).len(),
        0,
        "Server 1 rule should be removed"
    );
    assert_eq!(
        machine.handles("prerouting", &|r: &str| r.contains(&port2_str)).len(),
        1,
        "Server 2 rule MUST remain in prerouting after server 1 stops"
    );

    // Now stop server 2
    machine.remove(&mut server2);
    assert_eq!(machine.handles("prerouting", &|r: &str| r.contains(&port2_str)).len(), 0);
}

#[test]
fn test_server_nftables_wildcard_interface() {
    let mut machine = Machine::new();
    let test_port = 59880;
    let test_tun = "tun_test_swild";
    let tun_peer = "192.168.201.2";
    let tun_peer6 = Some("fcc9::2");

    // 1. Setup server with wildcard "-"
    let mut guard = machine
        .install(NftRuleGuard::setup_server(test_port, test_tun, tun_peer, tun_peer6, Some("-"), None))
        .expect("Failed to setup server nftables with wildcard");
    assert_eq!(guard.rules.len(), 2, "Expected IPv4 and IPv6 rules");

    // Verify rules in guard description do NOT have iif
    for r in &guard.rules {
        assert!(!r.description.contains("iif"), "Wildcard rule should not contain iif: {}", r.description);
    }

    // Verify rules exist in nft without iif
    let port_str = test_port.to_string();
    let wild = |r: &str| r.contains(&port_str) && !r.contains("iif");
    let handles = machine.handles("prerouting", &wild);
    assert_eq!(handles.len(), 2);

    // 2. Setup server again with "-" (idempotency)
    let mut guard2 = machine
        .install(NftRuleGuard::setup_server(test_port, test_tun, tun_peer, tun_peer6, Some("-"), None))
        .expect("Failed to setup server nftables second time");
    let handles2 = machine.handles("prerouting", &wild);
    assert_eq!(handles2.len(), 2, "Idempotent setup should not create duplicate rules");

    // 3. Remove rules
    guard2.removed = true;
    machine.remove(&mut guard);

    let handles_after = machine.handles("prerouting", &|r: &str| r.contains(&port_str));
    assert!(handles_after.is_empty(), "Rules should have been removed");
}

#[test]
fn test_client_nftables_wildcard_interface() {
    let mut machine = Machine::new();
    let test_tun = "tun_test_cwild";

    // 1. Setup client with wildcard "-"
    let mut guard = machine
        .install(NftRuleGuard::setup_client(test_tun, Some("-"), None))
        .expect("Failed to setup client nftables with wildcard");
    assert_eq!(guard.rules.len(), 1, "Expected masquerade rule");

    // Verify rule in guard description does NOT have oif
    assert!(
        !guard.rules[0].description.contains("oif"),
        "Wildcard client rule should not contain oif: {}",
        guard.rules[0].description
    );

    // Verify rule exists in nft without oif
    let wild = |r: &str| r.contains(test_tun) && !r.contains("oif");
    let handles = machine.handles("postrouting", &wild);
    assert_eq!(handles.len(), 1);

    // 2. Setup client again with "-" (idempotency)
    let mut guard2 = machine
        .install(NftRuleGuard::setup_client(test_tun, Some("-"), None))
        .expect("Failed to setup client nftables second time");
    let handles2 = machine.handles("postrouting", &wild);
    assert_eq!(handles2.len(), 1);

    // 3. Remove rules
    guard2.removed = true;
    machine.remove(&mut guard);

    let handles_after = machine.handles("postrouting", &|r: &str| r.contains(test_tun));
    assert!(handles_after.is_empty(), "Rule should have been removed");
}

#[test]
fn client_setup_runs_these_commands() {
    let mut machine = Machine::new();
    let guard = machine.install(NftRuleGuard::setup_client("tun0", Some("eth0"), Some(0x1f))).unwrap();
    assert_eq!(
        machine.log,
        vec![
            "nft add table inet phantun",
            "nft add chain inet phantun postrouting { type nat hook postrouting priority srcnat; policy accept; }",
            "nft -a list chain inet phantun postrouting",
            "nft add rule inet phantun postrouting iifname \"tun0\" oif \"eth0\" masquerade",
            "nft -a list chain inet phantun postrouting",
            "nft add table inet phantun",
            "nft add chain inet phantun prerouting_mangle { type filter hook prerouting priority mangle; policy accept; }",
            "nft -a list chain inet phantun prerouting_mangle",
            "nft add rule inet phantun prerouting_mangle iifname \"tun0\" meta mark set 0x1f",
            "nft -a list chain inet phantun prerouting_mangle",
        ]
    );
    assert_eq!(guard.rules[0].chain, "postrouting");
    assert_eq!(guard.rules[0].description, "iifname \"tun0\" oif \"eth0\" masquerade");
    assert_eq!(guard.rules[1].chain, "prerouting_mangle");
    assert_eq!(guard.rules[1].description, "iifname \"tun0\" meta mark set 0x1f");
    assert!(!guard.removed);
}

#[test]
fn server_setup_runs_these_commands() {
    let mut machine = Machine::new();
    let setup = NftRuleGuard::setup_server(4567, "tun0", "192.168.201.2", Some("fcc9::2"), None, Some(7));
    let guard = machine.install(setup).unwrap();
    assert_eq!(
        machine.log,
        vec![
            "read /proc/net/route",
            "nft add table inet phantun",
            "nft add chain inet phantun prerouting { type nat hook prerouting priority dstnat; policy accept; }",
            "nft -a list chain inet phantun prerouting",
            "nft add rule inet phantun prerouting iifname \"eth0\" tcp dport 4567 dnat ip to 192.168.201.2",
            "nft -a list chain inet phantun prerouting",
            "nft -a list chain inet phantun prerouting",
            "nft add rule inet phantun prerouting iifname \"eth0\" tcp dport 4567 dnat ip6 to fcc9::2",
            "nft -a list chain inet phantun prerouting",
            "nft add table inet phantun",
            "nft add chain inet phantun prerouting_mangle { type filter hook prerouting priority mangle; policy accept; }",
            "nft -a list chain inet phantun prerouting_mangle",
            "nft add rule inet phantun prerouting_mangle iifname \"tun0\" meta mark set 0x7",
            "nft -a list chain inet phantun prerouting_mangle",
        ]
    );
    let chains: Vec<&str> = guard.rules.iter().map(|r| r.chain.as_str()).collect();
    assert_eq!(chains, vec!["prerouting", "prerouting", "prerouting_mangle"]);
}

#[test]
fn setup_deletes_nothing() {
    let mut machine = Machine::new();
    machine.install(NftRuleGuard::setup_client("tun1", Some("eth0"), Some(1))).unwrap();
    let before = machine.handles("postrouting", &|_: &str| true);
    machine.log.clear();
    machine.install(NftRuleGuard::setup_client("tun2", Some("eth0"), Some(2))).unwrap();
    assert!(machine.log.iter().all(|line| !line.contains("delete")));
    let after = machine.handles("postrouting", &|_: &str| true);
    assert_eq!(after.len(), before.len() + 1);
    assert!(before.iter().all(|handle| after.contains(handle)));
}

#[test]
fn second_setup_keeps_the_same_handles_and_adds_nothing() {
    let mut machine = Machine::new();
    let first = machine.install(NftRuleGuard::setup_client("tun0", Some("eth0"), Some(256))).unwrap();
    let table = machine.table();
    machine.log.clear();
    let second = machine.install(NftRuleGuard::setup_client("tun0", Some("eth0"), Some(256))).unwrap();
    assert!(machine.log.iter().all(|line| !line.starts_with("nft add rule")));
    assert_eq!(machine.table(), table);
    let kept = |guard: &NftRuleGuard| -> Vec<(String, u64, String)> {
        guard.rules.iter().map(|r| (r.chain.clone(), r.handle, r.description.clone())).collect()
    };
    assert_eq!(kept(&first), kept(&second));
    let server = || NftRuleGuard::setup_server(59876, "tun0", "192.168.201.2", Some("fcc9::2"), None, Some(7));
    let first = machine.install(server()).unwrap();
    let second = machine.install(server()).unwrap();
    assert_eq!(first.rules.len(), 3);
    assert_eq!(kept(&first), kept(&second));
}

#[test]
fn header_lines_are_no_rules() {
    let listing = "table inet phantun {\n\tchain postrouting { # handle 1\n\t\ttype nat hook postrouting priority srcnat; policy accept;\n\t\tiifname \"tun0\" masquerade # handle 2\n\t}\n}";
    assert_eq!(get_chain_rule_handles(finished(true, listing, ""), &|_: &str| true), Ok(vec![2]));
}

#[test]
fn empty_name_stands_for_any_interface() {
    let mut machine = Machine::new();
    let guard = machine.install(NftRuleGuard::setup_client("tun0", Some(""), None)).unwrap();
    assert_eq!(guard.rules[0].description, "iifname \"tun0\" masquerade");
    assert!(!machine.log.contains(&"read /proc/net/route".to_string()));
}

#[test]
fn setup_without_a_known_interface_takes_any() {
    let mut machine = Machine::new();
    machine.routes = String::new();
    let guard = machine.install(NftRuleGuard::setup_client("tun0", None, None)).unwrap();
    assert_eq!(guard.rules[0].description, "iifname \"tun0\" masquerade");
    assert_eq!(machine.log[0], "read /proc/net/route");
    assert_eq!(machine.log[1], "ip route show default");
    assert_eq!(machine.log[2], "read /proc/net/dev");
}

#[test]
fn mark_rule_joins_the_rules_of_a_guard() {
    let mut machine = Machine::new();
    let guard = machine.install(NftRuleGuard::setup_client("tun0", Some("eth0"), None)).unwrap();
    let guard = machine.install(guard.add_fwmark_rule("tun0", 0xabc)).unwrap();
    let texts: Vec<&str> = guard.rules.iter().map(|r| r.description.as_str()).collect();
    assert_eq!(
        texts,
        vec!["iifname \"tun0\" oif \"eth0\" masquerade", "iifname \"tun0\" meta mark set 0xabc"]
    );
}

#[test]
fn removal_deletes_rules_then_empty_chains_then_the_empty_table() {
    let mut machine = Machine::new();
    let mut guard = machine.install(NftRuleGuard::setup_client("tun0", Some("eth0"), Some(5))).unwrap();
    machine.log.clear();
    machine.remove(&mut guard);
    assert_eq!(
        machine.log,
        vec![
            format!("nft delete rule inet phantun postrouting handle {}", guard.rules[0].handle),
            format!("nft delete rule inet phantun prerouting_mangle handle {}", guard.rules[1].handle),
            "nft -a list chain inet phantun postrouting".to_string(),
            "nft delete chain inet phantun postrouting".to_string(),
            "nft -a list chain inet phantun prerouting_mangle".to_string(),
            "nft delete chain inet phantun prerouting_mangle".to_string(),
            "nft -a list chain inet phantun prerouting".to_string(),
            "nft list table inet phantun".to_string(),
            "nft delete table inet phantun".to_string(),
        ]
    );
    assert!(guard.removed);
    assert_eq!(machine.table(), None);
}

#[test]
fn removal_leaves_a_chain_with_other_rules_alone() {
    let mut machine = Machine::new();
    let mut first = machine.install(NftRuleGuard::setup_client("tun0", Some("eth0"), Some(5))).unwrap();
    let second = machine.install(NftRuleGuard::setup_client("tun1", Some("eth0"), None)).unwrap();
    machine.remove(&mut first);
    let table = machine.table().unwrap();
    assert!(table.contains("chain postrouting"));
    assert!(table.contains("tun1"));
    assert!(!table.contains("chain prerouting_mangle"));
    assert!(!table.contains("tun0"));
    assert_eq!(
        machine.handles("postrouting", &|r: &str| r.contains("masquerade")),
        vec![second.rules[0].handle]
    );
}

#[test]
fn setup_and_removal_leave_no_trace() {
    let mut machine = Machine::new();
    machine.install(NftRuleGuard::setup_server(80, "tun9", "10.0.0.2", None, Some("eth0"), Some(9))).unwrap();
    let before = machine.table();
    let mut guard = machine
        .install(NftRuleGuard::setup_server(443, "tun0", "10.1.0.2", Some("fc00::2"), Some("eth0"), Some(0xff)))
        .unwrap();
    assert_eq!(guard.rules.len(), 3);
    assert_ne!(machine.table(), before);
    machine.remove(&mut guard);
    assert_eq!(machine.table(), before);
}

#[test]
fn second_removal_asks_for_nothing() {
    let mut machine = Machine::new();
    let mut guard = machine.install(NftRuleGuard::setup_client("tun0", Some("eth0"), None)).unwrap();
    machine.remove(&mut guard);
    machine.log.clear();
    machine.remove(&mut guard);
    assert!(machine.log.is_empty());
    assert!(guard.remove_rules().request().is_none());
}

#[test]
fn guard_without_rules_clears_what_is_empty() {
    let mut machine = Machine::new();
    machine.nft(&["add", "table", "inet", "phantun"]);
    machine.nft(&["add", "chain", "inet", "phantun", "postrouting", "{ type nat hook postrouting priority srcnat; }"]);
    let mut guard = NftRuleGuard::new();
    assert!(guard.rules.is_empty());
    assert!(!guard.removed);
    machine.remove(&mut guard);
    assert!(guard.removed);
    assert_eq!(machine.table(), None);
}

#[test]
fn guard_without_rules_spares_what_is_not_empty() {
    let mut machine = Machine::new();
    machine.install(NftRuleGuard::setup_client("tun0", Some("eth0"), Some(4))).unwrap();
    let before = machine.table();
    machine.remove(&mut NftRuleGuard::new());
    assert_eq!(machine.table(), before);
}

#[test]
fn removal_passes_over_failures() {
    let mut guard = NftRuleGuard {
        rules: vec![
            NftRule { chain: "postrouting".to_string(), handle: 4, description: "a".to_string() },
            NftRule { chain: "postrouting".to_string(), handle: 5, description: "b".to_string() },
        ],
        removed: false,
    };
    let mut removal = guard.remove_rules();
    let mut asked: Vec<String> = Vec::new();
    while let Some(request) = removal.request() {
        match request {
            Request::Run { args, .. } => asked.push(args.join(" ")),
            Request::ReadFile(path) => panic!("unexpected file {}", path),
        }
        removal = removal.resume(finished(false, "", "no"));
    }
    assert_eq!(
        asked,
        vec![
            "delete rule inet phantun postrouting handle 4",
            "delete rule inet phantun postrouting handle 5",
            "-a list chain inet phantun postrouting",
            "-a list chain inet phantun prerouting",
            "-a list chain inet phantun prerouting_mangle",
            "list table inet phantun",
        ]
    );
}

#[test]
fn setup_fails_without_nft() {
    let setup = NftRuleGuard::setup_client("tun0", Some("eth0"), None);
    let outcome: Outcome<String> = Outcome::Failed { not_found: true, error: "none".to_string() };
    match setup.resume(outcome) {
        Progress::Failed { error: NftError::NotFound(message), guard, removal } => {
            assert_eq!(
                message,
                "nft command not found. Please install nftables or pass --no-nftables to disable automatic rule management."
            );
            assert!(guard.rules.is_empty());
            assert!(!guard.removed);
            assert!(removal.request().is_none());
        }
        other => panic!("unexpected {:?}", other),
    }
}

#[test]
fn failed_chain_runs_nothing_else() {
    let mut machine = Machine::new();
    let setup = NftRuleGuard::setup_server(443, "tun0", "10.1.0.2", None, Some("-"), Some(1));
    let (_, guard) = install_but_fail(&mut machine, setup, "add", "prerouting");
    assert_eq!(machine.log, vec!["nft add table inet phantun"]);
    assert!(guard.rules.is_empty() && !guard.removed);
}

#[test]
fn failed_setup_looks_only_at_the_chains_that_it_made() {
    let mut machine = Machine::new();
    let setup = NftRuleGuard::setup_server(443, "tun0", "10.1.0.2", Some("fc00::2"), Some("-"), None);
    let (_, guard) = install_but_fail(&mut machine, setup, "add", "ip6");
    assert!(machine.log.iter().all(|line| !line.contains("mangle") && !line.contains("postrouting")));
    let undone = &machine.log[machine.log.len() - 5..];
    assert_eq!(
        undone,
        vec![
            format!("nft delete rule inet phantun prerouting handle {}", guard.rules[0].handle),
            "nft -a list chain inet phantun prerouting".to_string(),
            "nft delete chain inet phantun prerouting".to_string(),
            "nft list table inet phantun".to_string(),
            "nft delete table inet phantun".to_string(),
        ]
    );
}

#[test]
fn client_reuses_the_rule_of_a_name_with_white_space() {
    let mut machine = Machine::new();
    let first = machine.install(NftRuleGuard::setup_client("a b", Some("eth0"), None)).unwrap();
    machine.log.clear();
    let second = machine.install(NftRuleGuard::setup_client("a b", Some("eth0"), None)).unwrap();
    assert!(machine.log.iter().all(|line| !line.starts_with("nft add rule")));
    assert_eq!(first.rules.len(), 1);
    assert_eq!(first.rules[0].handle, second.rules[0].handle);
}

#[test]
fn setup_fails_when_nft_cannot_be_run() {
    let setup = NftRuleGuard::setup_client("tun0", Some("eth0"), None);
    let outcome: Outcome<String> = Outcome::Failed { not_found: false, error: "denied".to_string() };
    match setup.resume(outcome) {
        Progress::Failed { error: NftError::Io(error), .. } => assert_eq!(error, "denied"),
        other => panic!("unexpected {:?}", other),
    }
}

#[test]
fn setup_fails_when_nft_reports_a_failure() {
    let setup = NftRuleGuard::setup_client("tun0", Some("eth0"), None);
    match setup.resume(finished(false, "", "  Operation not permitted\n")) {
        Progress::Failed { error: NftError::Failed(message), .. } => assert_eq!(
            message,
            "nft command failed with status exit status: 1: nft add table inet phantun\nStderr: Operation not permitted"
        ),
        other => panic!("unexpected {:?}", other),
    }
}

/// Drives a setup whose request with this verb and word fails, and the removal that follows.
fn install_but_fail(machine: &mut Machine, setup: Setup, verb: &str, word: &str) -> (NftError<String>, NftRuleGuard) {
    let mut setup = setup;
    loop {
        let request = setup.request();
        let doomed = match &request {
            Request::Run { args, .. } => args[0] == verb && args.iter().any(|a| a.contains(word)),
            Request::ReadFile(_) => false,
        };
        let outcome = if doomed { finished(false, "", "no") } else { machine.perform(&request) };
        match setup.resume(outcome) {
            Progress::Continue(next) => setup = next,
            Progress::Failed { error, guard, removal } => {
                machine.finish(removal);
                return (error, guard);
            }
            Progress::Done(guard) => panic!("unexpected {:?}", guard),
        }
    }
}

#[test]
fn failed_mark_step_undoes_the_client_setup() {
    let mut machine = Machine::new();
    let setup = NftRuleGuard::setup_client("tun0", Some("eth0"), Some(3));
    let (error, guard) = install_but_fail(&mut machine, setup, "add", "mark set");
    match error {
        NftError::Failed(message) => assert_eq!(
            message,
            "nft command failed with status exit status: 1: nft add rule inet phantun prerouting_mangle iifname \"tun0\" meta mark set 0x3\nStderr: no"
        ),
        other => panic!("unexpected {:?}", other),
    }
    assert_eq!(guard.rules.len(), 1);
    assert!(guard.removed);
    let delete = format!("nft delete rule inet phantun postrouting handle {}", guard.rules[0].handle);
    assert_eq!(machine.log.iter().filter(|line| **line == delete).count(), 1);
    assert_eq!(machine.table(), None);
}

#[test]
fn failed_second_rule_undoes_the_server_setup() {
    let mut machine = Machine::new();
    let other = machine.install(NftRuleGuard::setup_server(80, "tun9", "10.0.0.2", None, Some("-"), None)).unwrap();
    let before = machine.table();
    let setup = NftRuleGuard::setup_server(443, "tun0", "10.1.0.2", Some("fc00::2"), Some("-"), Some(1));
    let (_, guard) = install_but_fail(&mut machine, setup, "add", "ip6");
    assert_eq!(guard.rules.len(), 1);
    assert_ne!(guard.rules[0].handle, other.rules[0].handle);
    assert!(machine.log.iter().all(|line| !line.contains("add chain inet phantun prerouting_mangle")));
    assert_eq!(machine.table(), before);
}

#[test]
fn failed_first_rule_leaves_no_empty_chain() {
    let mut machine = Machine::new();
    let setup = NftRuleGuard::setup_client("tun0", Some("eth0"), None);
    let (_, guard) = install_but_fail(&mut machine, setup, "add", "masquerade");
    assert!(guard.rules.is_empty());
    assert_eq!(machine.table(), None);
}

#[test]
fn failed_mark_leaves_the_rules_of_a_guard_alone() {
    let mut machine = Machine::new();
    let guard = machine.install(NftRuleGuard::setup_client("tun0", Some("eth0"), None)).unwrap();
    let handle = guard.rules[0].handle;
    let (_, guard) = install_but_fail(&mut machine, guard.add_fwmark_rule("tun0", 9), "add", "mark set");
    assert_eq!(guard.rules.len(), 1);
    assert_eq!(guard.rules[0].handle, handle);
    assert!(!guard.removed);
    assert_eq!(machine.handles("postrouting", &|_: &str| true), vec![handle]);
}

#[test]
fn server_does_not_take_the_rule_of_a_longer_port() {
    let mut machine = Machine::new();
    let other = machine
        .install(NftRuleGuard::setup_server(8080, "tun1", "192.168.201.2", None, Some("-"), None))
        .unwrap();
    machine.log.clear();
    let guard = machine
        .install(NftRuleGuard::setup_server(80, "tun0", "192.168.201.2", None, Some("-"), None))
        .unwrap();
    assert!(machine
        .log
        .contains(&"nft add rule inet phantun prerouting tcp dport 80 dnat ip to 192.168.201.2".to_string()));
    assert_eq!(guard.rules.len(), 1);
    assert_ne!(guard.rules[0].handle, other.rules[0].handle);
}

#[test]
fn client_does_not_take_the_rule_of_a_longer_tunnel_name() {
    let mut machine = Machine::new();
    let other = machine.install(NftRuleGuard::setup_client("tun10", Some("-"), None)).unwrap();
    machine.log.clear();
    let guard = machine.install(NftRuleGuard::setup_client("tun1", Some("-"), None)).unwrap();
    assert!(machine
        .log
        .contains(&"nft add rule inet phantun postrouting iifname \"tun1\" masquerade".to_string()));
    assert_eq!(guard.rules.len(), 1);
    assert_ne!(guard.rules[0].handle, other.rules[0].handle);
}

#[test]
fn mark_does_not_take_the_rule_of_another_mark() {
    let mut machine = Machine::new();
    let other = machine.install(NftRuleGuard::new().add_fwmark_rule("tun0", 0x100)).unwrap();
    machine.log.clear();
    let guard = machine.install(NftRuleGuard::new().add_fwmark_rule("tun0", 1)).unwrap();
    assert!(machine
        .log
        .contains(&"nft add rule inet phantun prerouting_mangle iifname \"tun0\" meta mark set 0x1".to_string()));
    assert_eq!(guard.rules.len(), 1);
    assert_ne!(guard.rules[0].handle, other.rules[0].handle);
}

#[test]
fn chain_that_cannot_be_listed_shows_no_rules() {
    let any = |_: &str| true;
    let absent: Outcome<String> = Outcome::Failed { not_found: true, error: "none".to_string() };
    assert_eq!(get_chain_rule_handles(absent, &any), Ok(vec![]));
    assert_eq!(get_chain_rule_handles(finished(false, "x # handle 3\n", ""), &any), Ok(vec![]));
    let denied: Outcome<String> = Outcome::Failed { not_found: false, error: "denied".to_string() };
    assert_eq!(get_chain_rule_handles(denied, &any), Err("denied".to_string()));
}

#[test]
fn listing_shows_handles_of_accepted_rules() {
    let listing = "table inet phantun { # handle 7\n\
        \tchain postrouting { # handle 1\n\
        \t\ttype nat hook postrouting priority srcnat; policy accept;\n\
        \t\tcomment \"# handle 99\" masquerade # handle 12\r\n\
        \t\tdrop # handle x\n\
        \t\taccept # handle 13\n\
        \t}\n}\n";
    let any = |_: &str| true;
    assert_eq!(get_chain_rule_handles(finished(true, listing, ""), &any), Ok(vec![12, 13]));
    let exact = |r: &str| r == "comment \"# handle 99\" masquerade";
    assert_eq!(get_chain_rule_handles(finished(true, listing, ""), &exact), Ok(vec![12]));
}

#[test]
fn bytes_that_are_no_text_are_replaced() {
    let outcome: Outcome<String> = Outcome::Finished(Output {
        success: false,
        status: "signal: 9".to_string(),
        stdout: Vec::new(),
        stderr: vec![0x62, 0x61, 0x64, 0xff, 0x21, 0x0a],
    });
    let args = vec!["list".to_string(), "ruleset".to_string()];
    match execute_nft(&args, outcome) {
        Err(NftError::Failed(message)) => assert_eq!(
            message,
            "nft command failed with status signal: 9: nft list ruleset\nStderr: bad\u{fffd}!"
        ),
        other => panic!("unexpected {:?}", other),
    }
}

#[test]
fn successful_command_hands_its_output_back() {
    let args = vec!["list".to_string()];
    match execute_nft(&args, finished(true, "out", "err")) {
        Ok(output) => {
            assert_eq!(output.stdout, b"out".to_vec());
            assert_eq!(output.stderr, b"err".to_vec());
            assert_eq!(output.status, "exit status: 0");
        }
        other => panic!("unexpected {:?}", other),
    }
}
