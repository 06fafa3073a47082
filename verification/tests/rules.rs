//! The text of rules, and how they are found again.

use phantun::command::{
    add_rule, delete_chain, delete_rule, delete_table, ensure_chain_exists, ensure_table_exists, join, list_chain,
    list_table, TABLE_FAMILY, TABLE_NAME,
};
use phantun::listing::{holds_no_chains, holds_no_rules, rule_handles};
use phantun::rule::{Family, TunnelRule};

fn masquerade(tun: &str, iface: Option<&str>) -> TunnelRule {
    TunnelRule::Masquerade { tun: tun.to_string(), iface: iface.map(|i| i.to_string()) }
}

fn forward(iface: Option<&str>, port: u16, family: Family, peer: &str) -> TunnelRule {
    TunnelRule::Forward { iface: iface.map(|i| i.to_string()), port, family, peer: peer.to_string() }
}

fn mark(tun: &str, mark: u32) -> TunnelRule {
    TunnelRule::Mark { tun: tun.to_string(), mark }
}

#[test]
fn texts_of_rules() {
    assert_eq!(masquerade("tun0", Some("eth0")).text(), "iifname \"tun0\" oif \"eth0\" masquerade");
    assert_eq!(masquerade("tun0", None).text(), "iifname \"tun0\" masquerade");
    assert_eq!(
        forward(Some("eth0"), 4567, Family::V4, "192.168.201.2").text(),
        "iifname \"eth0\" tcp dport 4567 dnat ip to 192.168.201.2"
    );
    assert_eq!(forward(None, 0, Family::V6, "fcc9::2").text(), "tcp dport 0 dnat ip6 to fcc9::2");
    assert_eq!(forward(Some("-"), 1, Family::V4, "10.0.0.2").text(), "tcp dport 1 dnat ip to 10.0.0.2");
    assert_eq!(mark("tun0", 0).text(), "iifname \"tun0\" meta mark set 0x0");
    assert_eq!(mark("tun0", u32::MAX).text(), "iifname \"tun0\" meta mark set 0xffffffff");
    assert_eq!(masquerade("t", None).chain(), "postrouting");
    assert_eq!(forward(None, 1, Family::V4, "p").chain(), "prerouting");
    assert_eq!(mark("t", 1).chain(), "prerouting_mangle");
}

#[test]
fn rules_are_found_by_their_own_text() {
    let rules = [
        masquerade("tun0", Some("eth0")),
        masquerade("tun0", None),
        forward(Some("eth0"), 4567, Family::V4, "192.168.201.2"),
        forward(None, 4567, Family::V6, "fcc9::2"),
        mark("tun0", 0x100),
    ];
    for rule in &rules {
        assert!(rule.matches(&rule.text()));
    }
}

#[test]
fn marks_are_found_in_any_notation() {
    let rule = mark("tun0", 0xabc);
    assert!(rule.matches("iifname \"tun0\" meta mark set 0x00000abc"));
    assert!(rule.matches("iifname \"tun0\" mark set 0xABC"));
    assert!(rule.matches("iifname \"tun0\" meta mark set 2748"));
    assert!(!rule.matches("iifname \"tun0\" meta mark set 0x00000abd"));
    assert!(!rule.matches("iifname \"tun1\" meta mark set 0x00000abc"));
    assert!(!rule.matches("iif \"tun0\" meta mark set 0x00000abc"));
    assert!(!rule.matches("iifname \"tun0\" meta mark 0x00000abc"));
}

#[test]
fn masquerading_is_told_apart_by_interface() {
    let named = masquerade("tun0", Some("eth0"));
    let any = masquerade("tun0", None);
    let with_oif = "iifname \"tun0\" oif \"eth0\" masquerade";
    let with_oifname = "iifname \"tun0\" oifname \"eth0\" masquerade";
    let without = "iifname \"tun0\" masquerade";
    assert!(named.matches(with_oif) && named.matches(with_oifname) && !named.matches(without));
    assert!(!any.matches(with_oif) && !any.matches(with_oifname) && any.matches(without));
    assert!(!named.matches("iifname \"tun0\" oif \"eth1\" masquerade"));
    assert!(!any.matches("iifname \"tun0\" accept"));
    assert!(!any.matches("iifname \"tap0\" masquerade"));
}

#[test]
fn forwarding_is_told_apart_by_port_family_peer_and_interface() {
    let rule = forward(Some("eth0"), 4567, Family::V4, "192.168.201.2");
    assert!(rule.matches("iif \"eth0\" tcp dport 4567 dnat ip to 192.168.201.2"));
    assert!(!rule.matches("tcp dport 4567 dnat ip to 192.168.201.2"));
    assert!(!rule.matches("iifname \"eth0\" tcp dport 4568 dnat ip to 192.168.201.2"));
    assert!(!rule.matches("iifname \"eth0\" tcp dport 4567 dnat ip6 to 192.168.201.2"));
    assert!(!rule.matches("iifname \"eth0\" tcp dport 4567 dnat ip to 192.168.201.3"));
    assert!(!rule.matches("iifname \"eth0\" udp dport 4567 dnat ip to 192.168.201.2"));
    let any = forward(None, 4567, Family::V4, "192.168.201.2");
    assert!(any.matches("tcp dport 4567 dnat ip to 192.168.201.2"));
    assert!(!any.matches("iif \"eth0\" tcp dport 4567 dnat ip to 192.168.201.2"));
}

#[test]
fn keywords_in_names_do_not_mislead() {
    let named_oif = masquerade("oif0", None);
    assert_eq!(named_oif.text(), "iifname \"oif0\" masquerade");
    assert!(named_oif.matches(&named_oif.text()));
    let dash = forward(Some("-"), 1, Family::V4, "10.0.0.2");
    assert!(dash.matches(&dash.text()));
    assert!(!dash.matches("iifname \"-\" tcp dport 1 dnat ip to 10.0.0.2"));
    assert!(masquerade("tun0", Some("oifname")).matches("iifname \"tun0\" oif \"oifname\" masquerade"));
}

#[test]
fn names_with_white_space_are_found() {
    let odd = masquerade("a b", Some("eth0"));
    assert!(odd.matches("iifname \"a b\" oif \"eth0\" masquerade"));
    assert!(odd.matches("iifname \"a b\" oifname \"eth0\" counter masquerade"));
    assert!(!odd.matches("iifname \"a c\" oif \"eth0\" masquerade"));
    assert!(!masquerade("a", Some("eth0")).matches(&odd.text()));
    let keyword = masquerade("a oif b", None);
    assert!(keyword.matches(&keyword.text()));
    let entry = forward(Some("x tcp dport 80 y"), 8080, Family::V4, "10.0.0.2");
    assert!(entry.matches(&entry.text()));
    assert!(!forward(Some("x tcp dport 80 y"), 80, Family::V4, "10.0.0.2").matches(&entry.text()));
    assert!(mark("a b", 7).matches("iifname \"a b\" meta mark set 0x00000007"));
}

#[test]
fn names_with_quotation_marks_are_found() {
    for name in ["a\"b", "\"", "a\"", "\"a", "a\" b", "a\" oif \"b", "a\" "] {
        for rule in [
            masquerade(name, Some("eth0")),
            masquerade("tun0", Some(name)),
            masquerade(name, None),
            forward(Some(name), 80, Family::V6, "fc00::2"),
            mark(name, 256),
        ] {
            assert!(rule.matches(&rule.text()), "{}", rule.text());
        }
        let padded = format!("iifname \"{}\" meta mark set 0x00000100", name);
        assert!(mark(name, 256).matches(&padded));
        let by_name = format!("iifname \"{}\" oifname \"eth0\" masquerade", name);
        assert!(masquerade(name, Some("eth0")).matches(&by_name));
    }
}

#[test]
fn bare_names_are_found_as_whole_words() {
    assert!(masquerade("tun0", None).matches("iifname tun0 masquerade"));
    assert!(!masquerade("tun0", None).matches("iifname tun01 masquerade"));
    assert!(!masquerade("tun0", None).matches("iifname tun0 oif eth0 masquerade"));
    assert!(masquerade("tun0", Some("eth0")).matches("iifname tun0 oif eth0 masquerade"));
    assert!(forward(Some("eth0"), 80, Family::V4, "10.0.0.2").matches("iif eth0 tcp dport 80 dnat ip to 10.0.0.2"));
    assert!(mark("tun0", 1).matches("iifname tun0 meta mark set 1"));
    assert!(!masquerade("\"tun0\"", None).matches("iifname \"tun0\" masquerade"));
}

#[test]
fn rules_are_told_apart_by_whole_words() {
    let port = forward(None, 80, Family::V4, "192.168.201.2");
    assert!(!port.matches("tcp dport 8080 dnat ip to 192.168.201.2"));
    assert!(!port.matches("tcp dport 180 dnat ip to 192.168.201.2"));
    assert!(!port.matches("tcp dport 80 dnat ip to 192.168.201.20"));
    let tunnel = masquerade("tun1", None);
    assert!(!tunnel.matches("iifname \"tun10\" masquerade"));
    assert!(!tunnel.matches("iifname \"xtun1\" masquerade"));
    let named = masquerade("tun1", Some("eth1"));
    assert!(!named.matches("iifname \"tun1\" oif \"eth10\" masquerade"));
    assert!(!named.matches("iifname \"eth1\" oif \"tun1\" masquerade"));
    let one = mark("tun0", 1);
    assert!(!one.matches("iifname \"tun0\" meta mark set 0x00000100"));
    assert!(!one.matches("iifname \"tun0\" meta mark set 0x00000010"));
    assert!(one.matches("iifname \"tun0\" meta mark set 0x00000001"));
    let other_tunnel = mark("tun1", 1);
    assert!(!other_tunnel.matches(&mark("tun10", 1).text()));
}

#[test]
fn rules_for_any_interface_name_none() {
    assert!(!masquerade("tun0", None).text().contains("oif"));
    assert!(!forward(None, 80, Family::V4, "10.0.0.2").text().contains("iif"));
    assert!(!forward(None, 80, Family::V6, "fc00::2").text().contains("iif"));
}

#[test]
fn arguments_of_commands() {
    assert_eq!(TABLE_FAMILY, "inet");
    assert_eq!(TABLE_NAME, "phantun");
    assert_eq!(ensure_table_exists(), vec!["add", "table", "inet", "phantun"]);
    assert_eq!(ensure_chain_exists("c", "{ d }"), vec!["add", "chain", "inet", "phantun", "c", "{ d }"]);
    assert_eq!(add_rule("c", "r"), vec!["add", "rule", "inet", "phantun", "c", "r"]);
    assert_eq!(list_chain("c"), vec!["-a", "list", "chain", "inet", "phantun", "c"]);
    assert_eq!(delete_rule("c", "5"), vec!["delete", "rule", "inet", "phantun", "c", "handle", "5"]);
    assert_eq!(delete_chain("c"), vec!["delete", "chain", "inet", "phantun", "c"]);
    assert_eq!(list_table(), vec!["list", "table", "inet", "phantun"]);
    assert_eq!(delete_table(), vec!["delete", "table", "inet", "phantun"]);
    assert_eq!(join(&ensure_table_exists(), " "), "add table inet phantun");
    assert_eq!(join(&Vec::new(), " "), "");
}

#[test]
fn handles_of_a_listing() {
    let listing = "a # handle 1\nb\nc # handle 18446744073709551615\nd # handle 18446744073709551616\n # handle 4\n";
    assert_eq!(rule_handles(listing, &|_: &str| true), vec![1, u64::MAX, 4]);
    assert_eq!(rule_handles(listing, &|r: &str| r == "c"), vec![u64::MAX]);
    assert_eq!(rule_handles(listing, &|r: &str| r.is_empty()), vec![4]);
    assert_eq!(rule_handles("", &|_: &str| true), Vec::<u64>::new());
    assert_eq!(rule_handles("chain c { # handle 7\n\tdrop # handle 8\n", &|_: &str| true), vec![8]);
}

#[test]
fn bare_chains_and_tables() {
    let bare = "table inet phantun {\n\tchain prerouting { # handle 1\n\t\ttype nat hook prerouting priority dstnat; policy accept;\n\t}\n}\n";
    let full = "table inet phantun {\n\tchain prerouting { # handle 1\n\t\ttype nat hook prerouting priority dstnat; policy accept;\n\t\ttcp dport 1 accept # handle 2\n\t}\n}\n";
    assert!(holds_no_rules(bare));
    assert!(!holds_no_rules(full));
    assert!(!holds_no_chains(bare));
    assert!(holds_no_chains("table inet phantun {\n}\n"));
    assert!(!holds_no_chains("table inet phantun {\n\tset s {\n\t}\n}\n"));
}
