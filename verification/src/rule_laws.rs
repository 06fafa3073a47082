//! What the rules of a tunnel say, and which listed rules are taken for them, token by token.

use vstd::prelude::*;
use crate::fwmark::fwmark_value;
use crate::number::{decimal, hexadecimal, hexadecimal_8, IntError};
use crate::rule::{
    family_word, gives_name, is_address, is_clear, is_unquoted, lemma_written_is_told, mark_text,
    named, quoted, sets_mark, sets_mark_at, text_shows_the_rule, Family, TunnelRuleView,
};
use crate::text::{has_phrase, phrase_at, tokens_of};

verus! {

/// Each rule belongs to the chain that is hooked in where it has to work.
pub proof fn rules_belong_to_their_chains(rule: TunnelRuleView)
    ensures
        rule is Masquerade <==> rule.chain() == "postrouting"@,
        rule is Forward <==> rule.chain() == "prerouting"@,
        rule is Mark <==> rule.chain() == "prerouting_mangle"@,
{
    reveal_strlit("postrouting");
    reveal_strlit("prerouting");
    reveal_strlit("prerouting_mangle");
    assert("postrouting"@.len() == 11 && "prerouting"@.len() == 10 && "prerouting_mangle"@.len()
        == 17);
}

/// The text in quotation marks.
pub open spec fn in_quotes(name: Seq<char>) -> Seq<char> {
    seq!['"'] + name + seq!['"']
}

/// Quotation marks are put around a name and nothing else.
proof fn lemma_in_quotes(name: Seq<char>)
    ensures
        quoted(name) == in_quotes(name),
{
    reveal_strlit("\"");
    assert(quoted(name) =~= in_quotes(name));
}

/// The text of the rule for masquerading: packets from the tunnel, through the interface if there
/// is one, are masqueraded.
pub proof fn masquerade_is_written(tun: Seq<char>, iface: Option<Seq<char>>)
    requires
        is_clear(tun),
        iface is Some ==> is_clear(iface->0),
    ensures
        ({
            let rule = TunnelRuleView::Masquerade { tun, iface };
            tokens_of(rule.text()) == seq!["iifname"@, in_quotes(tun)] + (match iface {
                Some(name) => seq!["oif"@, in_quotes(name)],
                None => seq![],
            }) + seq!["masquerade"@]
        }),
{
    let rule = TunnelRuleView::Masquerade { tun, iface };
    text_shows_the_rule(rule);
    lemma_in_quotes(tun);
    match iface {
        Some(name) => {
            lemma_in_quotes(name);
            assert(tokens_of(rule.text()) =~= seq!["iifname"@, in_quotes(tun)] + seq![
                "oif"@,
                in_quotes(name),
            ] + seq!["masquerade"@]);
        },
        None => {
            assert(tokens_of(rule.text()) =~= seq!["iifname"@, in_quotes(tun)] + Seq::<
                Seq<char>,
            >::empty() + seq!["masquerade"@]);
        },
    }
}

/// The text of a rule for forwarding: packets to the TCP port, that come in on the interface if
/// one is named, go to the peer of the family.
pub proof fn forward_is_written(
    iface: Option<Seq<char>>,
    port: u16,
    family: Family,
    peer: Seq<char>,
)
    requires
        iface is Some ==> is_clear(iface->0),
        is_address(peer),
    ensures
        ({
            let rule = TunnelRuleView::Forward { iface, port, family, peer };
            tokens_of(rule.text()) == (if iface is Some && iface->0 != "-"@ {
                seq!["iifname"@, in_quotes(iface->0)]
            } else {
                seq![]
            }) + seq!["tcp"@, "dport"@, decimal(port as nat), "dnat"@] + (match family {
                Family::V4 => seq!["ip"@],
                Family::V6 => seq!["ip6"@],
            }) + seq!["to"@, peer]
        }),
{
    let rule = TunnelRuleView::Forward { iface, port, family, peer };
    text_shows_the_rule(rule);
    let word = match family {
        Family::V4 => "ip"@,
        Family::V6 => "ip6"@,
    };
    if iface is Some && iface->0 != "-"@ {
        lemma_in_quotes(iface->0);
        assert(tokens_of(rule.text()) =~= seq!["iifname"@, in_quotes(iface->0)] + seq![
            "tcp"@,
            "dport"@,
            decimal(port as nat),
            "dnat"@,
        ] + seq![word] + seq!["to"@, peer]);
    } else {
        assert(tokens_of(rule.text()) =~= Seq::<Seq<char>>::empty() + seq![
            "tcp"@,
            "dport"@,
            decimal(port as nat),
            "dnat"@,
        ] + seq![word] + seq!["to"@, peer]);
    }
}

/// The text of the rule for a mark: packets from the tunnel carry it.
pub proof fn mark_is_written(tun: Seq<char>, mark: u32)
    requires
        is_clear(tun),
    ensures
        ({
            let rule = TunnelRuleView::Mark { tun, mark };
            let tokens = tokens_of(rule.text());
            &&& tokens.len() == 6
            &&& tokens.take(5) == seq!["iifname"@, in_quotes(tun), "meta"@, "mark"@, "set"@]
            &&& fwmark_value(tokens[5]) == Ok::<nat, IntError>(mark as nat)
            &&& rule.text() == "iifname \""@ + tun + "\" meta mark set 0x"@ + hexadecimal(
                mark as nat,
            )
        }),
{
    let rule = TunnelRuleView::Mark { tun, mark };
    text_shows_the_rule(rule);
    lemma_in_quotes(tun);
    let tokens = tokens_of(rule.text());
    assert(tokens.take(5) =~= seq!["iifname"@, in_quotes(tun), "meta"@, "mark"@, "set"@]);
    assert(rule.text() =~= "iifname \""@ + tun + "\" meta mark set 0x"@ + hexadecimal(mark as nat));
}

/// Whatever the names are, the text of a rule is made of its keywords and of them alone.
pub proof fn rules_are_written_out(
    tun: Seq<char>,
    iface: Seq<char>,
    port: u16,
    family: Family,
    peer: Seq<char>,
)
    ensures
        ({
            let rule = TunnelRuleView::Masquerade { tun, iface: Some(iface) };
            rule.text() == "iifname \""@ + tun + "\" oif \""@ + iface + "\" masquerade"@
        }),
        ({
            let rule = TunnelRuleView::Masquerade { tun, iface: None };
            rule.text() == "iifname \""@ + tun + "\" masquerade"@
        }),
        ({
            let rule = TunnelRuleView::Forward { iface: None, port, family: Family::V4, peer };
            rule.text() == "tcp dport "@ + decimal(port as nat) + " "@ + "dnat ip to"@ + " "@ + peer
        }),
        ({
            let rule = TunnelRuleView::Forward { iface: None, port, family: Family::V6, peer };
            rule.text() == "tcp dport "@ + decimal(port as nat) + " "@ + "dnat ip6 to"@ + " "@
                + peer
        }),
        ({
            let bound = TunnelRuleView::Forward { iface: Some(iface), port, family, peer };
            let free = TunnelRuleView::Forward { iface: None, port, family, peer };
            bound.text() == if iface == "-"@ {
                free.text()
            } else {
                "iifname \""@ + iface + "\" "@ + free.text()
            }
        }),
{
}

/// The keyword stands at index `at`, and the name behind it: in quotation marks, or bare if it
/// holds none itself.
pub open spec fn names(
    tokens: Seq<Seq<char>>,
    keyword: Seq<char>,
    name: Seq<char>,
    at: int,
) -> bool {
    &&& 0 <= at < tokens.len() - 1
    &&& tokens[at] == keyword
    &&& tokens[at + 1] == in_quotes(name) || (tokens[at + 1] == name && !name.contains('"'))
}

/// The keyword stands somewhere with the name behind it.
pub open spec fn has_name(tokens: Seq<Seq<char>>, keyword: Seq<char>, name: Seq<char>) -> bool {
    exists|at: int| names(tokens, keyword, name, at)
}

/// What it means that tokens give a name.
proof fn lemma_gives_name(tokens: Seq<Seq<char>>, keyword: Seq<char>, name: Seq<char>)
    ensures
        gives_name(tokens, keyword, name) <==> has_name(tokens, keyword, name),
{
    let marked = seq![keyword, quoted(name)];
    let bare = seq![keyword, name];
    lemma_in_quotes(name);
    assert(is_unquoted(name) <==> !name.contains('"')) by {
        if !is_unquoted(name) {
            let i = choose|i: int| 0 <= i < name.len() && name[i] == '"';
            assert(name[i] == '"');
        }
    }
    if gives_name(tokens, keyword, name) {
        if has_phrase(tokens, marked) {
            let at = choose|at: int| phrase_at(tokens, marked, at);
            assert(tokens[at + 0] == marked[0] && tokens[at + 1] == marked[1]);
            assert(names(tokens, keyword, name, at));
        } else {
            let at = choose|at: int| phrase_at(tokens, bare, at);
            assert(tokens[at + 0] == bare[0] && tokens[at + 1] == bare[1]);
            assert(names(tokens, keyword, name, at));
        }
    }
    if has_name(tokens, keyword, name) {
        let at = choose|at: int| names(tokens, keyword, name, at);
        if tokens[at + 1] == in_quotes(name) {
            assert(phrase_at(tokens, marked, at));
        } else {
            assert(phrase_at(tokens, bare, at));
        }
    }
}

/// A listed rule is taken for a rule for masquerading exactly if it masquerades, names the tunnel
/// as where packets come from, and names the interface as where they leave, or none.
pub proof fn masquerade_is_recognised(tun: Seq<char>, iface: Option<Seq<char>>, listed: Seq<char>)
    requires
        is_clear(tun),
        iface is Some ==> is_clear(iface->0),
    ensures
        ({
            let rule = TunnelRuleView::Masquerade { tun, iface };
            let tokens = tokens_of(listed);
            rule.matches(listed) <==> {
                &&& has_name(tokens, "iifname"@, tun)
                &&& tokens.contains("masquerade"@)
                &&& match iface {
                    Some(name) => has_name(tokens, "oif"@, name) || has_name(
                        tokens,
                        "oifname"@,
                        name,
                    ),
                    None => !tokens.contains("oif"@) && !tokens.contains("oifname"@),
                }
            }
        }),
{
    let rule = TunnelRuleView::Masquerade { tun, iface };
    let tokens = tokens_of(listed);
    if rule.is_written_as(listed) {
        lemma_written_is_told(rule, listed);
    }
    lemma_gives_name(tokens, "iifname"@, tun);
    if iface is Some {
        lemma_gives_name(tokens, "oif"@, iface->0);
        lemma_gives_name(tokens, "oifname"@, iface->0);
    }
}

/// The port stands behind `tcp dport` at index `at`.
pub open spec fn matches_port(tokens: Seq<Seq<char>>, port: u16, at: int) -> bool {
    &&& 0 <= at < tokens.len() - 2
    &&& tokens[at] == "tcp"@ && tokens[at + 1] == "dport"@
    &&& tokens[at + 2] == decimal(port as nat)
}

/// The address stands behind `dnat`, its family and `to` at index `at`.
pub open spec fn sends_to(
    tokens: Seq<Seq<char>>,
    family: Family,
    peer: Seq<char>,
    at: int,
) -> bool {
    &&& 0 <= at < tokens.len() - 3
    &&& tokens[at] == "dnat"@ && tokens[at + 2] == "to"@
    &&& tokens[at + 1] == (match family {
        Family::V4 => "ip"@,
        Family::V6 => "ip6"@,
    })
    &&& tokens[at + 3] == peer
}

/// A listed rule is taken for a rule for forwarding exactly if it is for the TCP port, sends to
/// the peer of the family, and names the interface as where packets come in, or none; `-` names
/// none.
pub proof fn forward_is_recognised(
    iface: Option<Seq<char>>,
    port: u16,
    family: Family,
    peer: Seq<char>,
    listed: Seq<char>,
)
    requires
        iface is Some ==> is_clear(iface->0),
        is_address(peer),
    ensures
        ({
            let rule = TunnelRuleView::Forward { iface, port, family, peer };
            let tokens = tokens_of(listed);
            rule.matches(listed) <==> {
                &&& exists|at: int| matches_port(tokens, port, at)
                &&& exists|at: int| sends_to(tokens, family, peer, at)
                &&& if iface is Some && iface->0 != "-"@ {
                    has_name(tokens, "iif"@, iface->0) || has_name(tokens, "iifname"@, iface->0)
                } else {
                    !tokens.contains("iif"@) && !tokens.contains("iifname"@)
                }
            }
        }),
{
    let rule = TunnelRuleView::Forward { iface, port, family, peer };
    let tokens = tokens_of(listed);
    if rule.is_written_as(listed) {
        lemma_written_is_told(rule, listed);
    }
    if named(iface) is Some {
        lemma_gives_name(tokens, "iif"@, iface->0);
        lemma_gives_name(tokens, "iifname"@, iface->0);
    }
    let to_port = seq!["tcp"@, "dport"@, decimal(port as nat)];
    let to_peer = seq!["dnat"@, family_word(family), "to"@, peer];
    assert(has_phrase(tokens, to_port) <==> exists|at: int| matches_port(tokens, port, at)) by {
        if has_phrase(tokens, to_port) {
            let at = choose|at: int| phrase_at(tokens, to_port, at);
            assert(tokens[at + 0] == to_port[0] && tokens[at + 1] == to_port[1] && tokens[at + 2]
                == to_port[2]);
            assert(matches_port(tokens, port, at));
        }
        if exists|at: int| matches_port(tokens, port, at) {
            let at = choose|at: int| matches_port(tokens, port, at);
            assert(phrase_at(tokens, to_port, at));
        }
    }
    assert(has_phrase(tokens, to_peer) <==> exists|at: int| sends_to(tokens, family, peer, at)) by {
        if has_phrase(tokens, to_peer) {
            let at = choose|at: int| phrase_at(tokens, to_peer, at);
            assert(tokens[at + 0] == to_peer[0] && tokens[at + 1] == to_peer[1] && tokens[at + 2]
                == to_peer[2] && tokens[at + 3] == to_peer[3]);
            assert(sends_to(tokens, family, peer, at));
        }
        if exists|at: int| sends_to(tokens, family, peer, at) {
            let at = choose|at: int| sends_to(tokens, family, peer, at);
            assert(phrase_at(tokens, to_peer, at));
        }
    }
}

/// The mark stands behind `mark set` at index `at`, in any notation.
pub open spec fn sets_at(tokens: Seq<Seq<char>>, mark: u32, at: int) -> bool {
    &&& 0 <= at < tokens.len() - 2
    &&& tokens[at] == "mark"@ && tokens[at + 1] == "set"@
    &&& fwmark_value(tokens[at + 2]) == Ok::<nat, IntError>(mark as nat)
}

/// A listed rule is taken for the rule for a mark exactly if it names the tunnel as where packets
/// come from and sets that mark, in any notation.
pub proof fn mark_is_recognised(tun: Seq<char>, mark: u32, listed: Seq<char>)
    requires
        is_clear(tun),
    ensures
        ({
            let rule = TunnelRuleView::Mark { tun, mark };
            let tokens = tokens_of(listed);
            rule.matches(listed) <==> has_name(tokens, "iifname"@, tun) && exists|at: int|
                sets_at(tokens, mark, at)
        }),
{
    let rule = TunnelRuleView::Mark { tun, mark };
    let tokens = tokens_of(listed);
    if rule.is_written_as(listed) {
        lemma_written_is_told(rule, listed);
    }
    lemma_gives_name(tokens, "iifname"@, tun);
    let words = seq!["mark"@, "set"@];
    assert(sets_mark(tokens, mark) <==> exists|at: int| sets_at(tokens, mark, at)) by {
        if sets_mark(tokens, mark) {
            let at = choose|at: int| sets_mark_at(tokens, mark, at);
            assert(tokens[at + 0] == words[0] && tokens[at + 1] == words[1]);
            assert(sets_at(tokens, mark, at));
        }
        if exists|at: int| sets_at(tokens, mark, at) {
            let at = choose|at: int| sets_at(tokens, mark, at);
            assert(phrase_at(tokens, words, at));
            assert(sets_mark_at(tokens, mark, at));
        }
    }
}

/// Whatever its names are, a rule is found again as it was written, as listings write it, and
/// where its tokens say the same; nothing else is taken for it.
pub proof fn only_what_says_the_same_is_recognised(rule: TunnelRuleView, listed: Seq<char>)
    ensures
        rule.matches(listed) ==> {
            ||| listed == rule.text()
            ||| rule is Masquerade && rule->Masquerade_iface is Some && listed == "iifname \""@
                + rule->Masquerade_tun + "\" oifname \""@ + rule->Masquerade_iface->0
                + "\" masquerade"@
            ||| rule is Mark && listed == "iifname \""@ + rule->Mark_tun + "\" meta mark set 0x"@
                + hexadecimal_8(rule->mark as nat)
            ||| match rule {
                TunnelRuleView::Masquerade { tun, .. } => has_name(
                    tokens_of(listed),
                    "iifname"@,
                    tun,
                ),
                TunnelRuleView::Forward { peer, .. } => tokens_of(listed).contains(peer),
                TunnelRuleView::Mark { tun, .. } => has_name(tokens_of(listed), "iifname"@, tun),
            }
        },
{
    let tokens = tokens_of(listed);
    match rule {
        TunnelRuleView::Masquerade { tun, .. } => {
            lemma_gives_name(tokens, "iifname"@, tun);
        },
        TunnelRuleView::Forward { family, peer, .. } => {
            let to_peer = seq!["dnat"@, family_word(family), "to"@, peer];
            if has_phrase(tokens, to_peer) {
                let at = choose|at: int| phrase_at(tokens, to_peer, at);
                assert(tokens[at + 3] == to_peer[3]);
            }
        },
        TunnelRuleView::Mark { tun, mark } => {
            lemma_gives_name(tokens, "iifname"@, tun);
            assert(mark_text(tun, hexadecimal_8(mark as nat)) =~= "iifname \""@ + tun
                + "\" meta mark set 0x"@ + hexadecimal_8(mark as nat));
        },
    }
}

} // verus!
