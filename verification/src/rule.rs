//! The rules that a tunnel needs: their text, and how they are found again in a listing.

use vstd::prelude::*;
use vstd::string::*;
use crate::fwmark::{
    fwmark_value, hexadecimal_mark_round_trip, listed_mark_round_trip, parse_fwmark,
};
use crate::number::{
    decimal, decimal_text, digits_value, hexadecimal, hexadecimal_8, hexadecimal_8_text,
    hexadecimal_text, lemma_decimal_chars, lemma_decimal_injective, lemma_hexadecimal_chars,
    lemma_prefix_error, IntError, Radix,
};
use crate::text::{
    begins_with, chars_of, contains, contains_phrase, contains_word, first_close, has_phrase,
    is_close, is_phrase_at, is_spaceless, is_token, is_white_space, lemma_first_close, occurs_at,
    phrase_at, same_text, spaced, spaced_tokens_are_found, tokens, tokens_of, trimmed, views,
};

verus! {

/// The address family of a destination address.
#[derive(Clone, Copy, Debug, PartialEq, Eq, Structural)]
pub enum Family {
    V4,
    V6,
}

/// A rule that a tunnel needs.
#[derive(Debug)]
pub enum TunnelRule {
    /// Packets from the tunnel leave with the address of the interface, or of any interface.
    Masquerade { tun: String, iface: Option<String> },
    /// Packets to the TCP port that come in on the interface, or on any interface, go to the
    /// peer of the tunnel.
    Forward { iface: Option<String>, port: u16, family: Family, peer: String },
    /// Packets from the tunnel carry the mark.
    Mark { tun: String, mark: u32 },
}

/// The model of a `TunnelRule`.
pub enum TunnelRuleView {
    Masquerade { tun: Seq<char>, iface: Option<Seq<char>> },
    Forward { iface: Option<Seq<char>>, port: u16, family: Family, peer: Seq<char> },
    Mark { tun: Seq<char>, mark: u32 },
}

/// The view of an optional string.
pub open spec fn option_view(text: Option<String>) -> Option<Seq<char>> {
    match text {
        Some(text) => Some(text@),
        None => None,
    }
}

impl View for TunnelRule {
    type V = TunnelRuleView;

    open spec fn view(&self) -> TunnelRuleView {
        match self {
            TunnelRule::Masquerade { tun, iface } => TunnelRuleView::Masquerade {
                tun: tun@,
                iface: option_view(*iface),
            },
            TunnelRule::Forward { iface, port, family, peer } => TunnelRuleView::Forward {
                iface: option_view(*iface),
                port: *port,
                family: *family,
                peer: peer@,
            },
            TunnelRule::Mark { tun, mark } => TunnelRuleView::Mark { tun: tun@, mark: *mark },
        }
    }
}

impl TunnelRuleView {
    /// The chain that the rule belongs to.
    pub open spec fn chain(self) -> Seq<char> {
        match self {
            TunnelRuleView::Masquerade { .. } => "postrouting"@,
            TunnelRuleView::Forward { .. } => "prerouting"@,
            TunnelRuleView::Mark { .. } => "prerouting_mangle"@,
        }
    }

    /// The text of the rule, as `nft` takes it.
    pub open spec fn text(self) -> Seq<char> {
        match self {
            TunnelRuleView::Masquerade { tun, iface: Some(iface) } => "iifname \""@ + tun
                + "\" oif \""@ + iface + "\" masquerade"@,
            TunnelRuleView::Masquerade { tun, iface: None } => "iifname \""@ + tun
                + "\" masquerade"@,
            TunnelRuleView::Forward { iface, port, family, peer } => {
                let target = "tcp dport "@ + decimal(port as nat) + " "@ + dnat_to(family) + " "@
                    + peer;
                if iface is Some && iface->0 != "-"@ {
                    "iifname \""@ + iface->0 + "\" "@ + target
                } else {
                    target
                }
            },
            TunnelRuleView::Mark { tun, mark } => mark_text(tun, hexadecimal(mark as nat)),
        }
    }

    /// Whether a listed rule is taken for this one: it is written like this one, or names the same
    /// tunnel, port, address, mark and interface and does the same.
    pub open spec fn matches(self, listed: Seq<char>) -> bool {
        self.is_written_as(listed) || self.is_told_by(tokens_of(listed))
    }

    /// The listed text is that of the rule, or differs from it in a way in which listings do: by
    /// `oifname` in place of `oif`, or by a mark with eight digits.
    pub open spec fn is_written_as(self, listed: Seq<char>) -> bool {
        ||| listed == self.text()
        ||| match self {
            TunnelRuleView::Masquerade { tun, iface: Some(iface) } => listed
                == masquerade_by_name(tun, iface),
            TunnelRuleView::Mark { tun, mark } => listed == mark_text(
                tun,
                hexadecimal_8(mark as nat),
            ),
            _ => false,
        }
    }

    /// The tokens hold what tells the rule from others, whatever else they hold.
    pub open spec fn is_told_by(self, tokens: Seq<Seq<char>>) -> bool {
        match self {
            TunnelRuleView::Masquerade { tun, iface } => {
                &&& gives_name(tokens, "iifname"@, tun)
                &&& tokens.contains("masquerade"@)
                &&& gives_interface(tokens, "oif"@, "oifname"@, iface)
            },
            TunnelRuleView::Forward { iface, port, family, peer } => {
                &&& has_phrase(tokens, seq!["tcp"@, "dport"@, decimal(port as nat)])
                &&& has_phrase(tokens, seq!["dnat"@, family_word(family), "to"@, peer])
                &&& gives_interface(tokens, "iif"@, "iifname"@, named(iface))
            },
            TunnelRuleView::Mark { tun, mark } => {
                &&& gives_name(tokens, "iifname"@, tun)
                &&& sets_mark(tokens, mark)
            },
        }
    }

    /// The tokens of the rule's text.
    pub open spec fn words(self) -> Seq<Seq<char>> {
        match self {
            TunnelRuleView::Masquerade { tun, iface: Some(iface) } => seq![
                "iifname"@,
                quoted(tun),
                "oif"@,
                quoted(iface),
                "masquerade"@,
            ],
            TunnelRuleView::Masquerade { tun, iface: None } => seq![
                "iifname"@,
                quoted(tun),
                "masquerade"@,
            ],
            TunnelRuleView::Forward { iface, port, family, peer } => match named(iface) {
                Some(name) => seq![
                    "iifname"@,
                    quoted(name),
                    "tcp"@,
                    "dport"@,
                    decimal(port as nat),
                    "dnat"@,
                    family_word(family),
                    "to"@,
                    peer,
                ],
                None => seq![
                    "tcp"@,
                    "dport"@,
                    decimal(port as nat),
                    "dnat"@,
                    family_word(family),
                    "to"@,
                    peer,
                ],
            },
            TunnelRuleView::Mark { tun, mark } => mark_words(
                tun,
                "0x"@ + hexadecimal(mark as nat),
            ),
        }
    }

    /// The listed text shows this rule: token by token, but for the mark, which may be written in
    /// any notation.
    pub open spec fn is_shown_by(self, listed: Seq<char>) -> bool {
        match self {
            TunnelRuleView::Mark { tun, mark } => shows_mark(listed, tun, mark),
            _ => tokens_of(listed) == self.words(),
        }
    }

    /// The names in the rule can be told from what follows them, and the peer is an address.
    pub open spec fn is_plain(self) -> bool {
        match self {
            TunnelRuleView::Masquerade { tun, iface } => {
                &&& is_clear(tun)
                &&& iface is Some ==> is_clear(iface->0)
            },
            TunnelRuleView::Forward { iface, peer, .. } => {
                &&& iface is Some ==> is_clear(iface->0)
                &&& is_address(peer)
            },
            TunnelRuleView::Mark { tun, .. } => is_clear(tun),
        }
    }

    /// The rule with an interface only where its text names one.
    pub open spec fn as_written(self) -> TunnelRuleView {
        match self {
            TunnelRuleView::Forward { iface, port, family, peer } => TunnelRuleView::Forward {
                iface: named(iface),
                port,
                family,
                peer,
            },
            _ => self,
        }
    }
}

/// The name in quotation marks.
pub open spec fn quoted(name: Seq<char>) -> Seq<char> {
    "\""@ + name + "\""@
}

/// The interface that a rule for forwarding names: `-` stands for any.
pub open spec fn named(iface: Option<Seq<char>>) -> Option<Seq<char>> {
    if iface is Some && iface->0 != "-"@ {
        iface
    } else {
        None
    }
}

/// No quotation mark in the name is followed by white space, so that the quotation mark behind the
/// name is seen to close it.
pub open spec fn is_clear(name: Seq<char>) -> bool {
    forall|i: int|
        0 <= i < name.len() - 1 && #[trigger] name[i] == '"' ==> !is_white_space(name[i + 1])
}

/// The name holds no quotation mark.
pub open spec fn is_unquoted(name: Seq<char>) -> bool {
    forall|i: int| 0 <= i < name.len() ==> #[trigger] name[i] != '"'
}

/// The tokens give the name behind the keyword, in quotation marks or bare.
pub open spec fn gives_name(
    tokens: Seq<Seq<char>>,
    keyword: Seq<char>,
    name: Seq<char>,
) -> bool {
    ||| has_phrase(tokens, seq![keyword, quoted(name)])
    ||| is_unquoted(name) && has_phrase(tokens, seq![keyword, name])
}

/// The tokens give the interface behind either keyword, or hold neither keyword where there is
/// none to give.
pub open spec fn gives_interface(
    tokens: Seq<Seq<char>>,
    keyword: Seq<char>,
    other: Seq<char>,
    iface: Option<Seq<char>>,
) -> bool {
    match iface {
        Some(name) => gives_name(tokens, keyword, name) || gives_name(tokens, other, name),
        None => !tokens.contains(keyword) && !tokens.contains(other),
    }
}

/// The text that masquerades packets from the tunnel, with the interface behind `oifname`.
pub open spec fn masquerade_by_name(tun: Seq<char>, iface: Seq<char>) -> Seq<char> {
    "iifname \""@ + tun + "\" oifname \""@ + iface + "\" masquerade"@
}

/// The tokens set the mark, in any notation, behind index `at`.
pub open spec fn sets_mark_at(words: Seq<Seq<char>>, mark: u32, at: int) -> bool {
    &&& phrase_at(words, seq!["mark"@, "set"@], at)
    &&& at + 2 < words.len()
    &&& fwmark_value(words[at + 2]) == Ok::<nat, IntError>(mark as nat)
}

/// The tokens set the mark, in any notation.
pub open spec fn sets_mark(words: Seq<Seq<char>>, mark: u32) -> bool {
    exists|at: int| sets_mark_at(words, mark, at)
}

/// The tokens that mark packets from the tunnel with the value.
pub open spec fn mark_words(tun: Seq<char>, value: Seq<char>) -> Seq<Seq<char>> {
    seq!["iifname"@, quoted(tun), "meta"@, "mark"@, "set"@, value]
}

/// The listed text marks packets from the tunnel, with the mark written as `value`.
pub open spec fn writes_mark(
    listed: Seq<char>,
    tun: Seq<char>,
    mark: u32,
    value: Seq<char>,
) -> bool {
    &&& tokens_of(listed) == mark_words(tun, value)
    &&& fwmark_value(value) == Ok::<nat, IntError>(mark as nat)
}

/// The listed text marks packets from the tunnel with the mark, in some notation.
pub open spec fn shows_mark(listed: Seq<char>, tun: Seq<char>, mark: u32) -> bool {
    exists|value: Seq<char>| writes_mark(listed, tun, mark, value)
}

/// The word for the address family.
pub open spec fn family_word(family: Family) -> Seq<char> {
    match family {
        Family::V4 => "ip"@,
        Family::V6 => "ip6"@,
    }
}

/// The text is made of what IP addresses are written with: hexadecimal digits, dots and colons.
pub open spec fn is_address(text: Seq<char>) -> bool {
    &&& text.len() > 0
    &&& forall|i: int| 0 <= i < text.len() ==> is_address_char(#[trigger] text[i])
}

/// IP addresses are written with this character.
pub open spec fn is_address_char(c: char) -> bool {
    '0' <= c <= '9' || 'a' <= c <= 'f' || 'A' <= c <= 'F' || c == '.' || c == ':'
}

/// The words that send a packet to an address of the family.
pub open spec fn dnat_to(family: Family) -> Seq<char> {
    match family {
        Family::V4 => "dnat ip to"@,
        Family::V6 => "dnat ip6 to"@,
    }
}

impl TunnelRule {
    /// Returns the chain that the rule belongs to.
    pub fn chain(&self) -> (chain: &'static str)
        ensures
            chain@ == self@.chain(),
    {
        match self {
            TunnelRule::Masquerade { .. } => "postrouting",
            TunnelRule::Forward { .. } => "prerouting",
            TunnelRule::Mark { .. } => "prerouting_mangle",
        }
    }

    /// Writes the rule, as `nft` takes it.
    pub fn text(&self) -> (text: String)
        ensures
            text@ == self@.text(),
    {
        match self {
            TunnelRule::Masquerade { tun, iface } => {
                let mut text = "iifname \"".to_owned();
                text.append(tun.as_str());
                match iface {
                    Some(iface) => {
                        text.append("\" oif \"");
                        text.append(iface.as_str());
                        text.append("\" masquerade");
                    },
                    None => {
                        text.append("\" masquerade");
                    },
                }
                text
            },
            TunnelRule::Forward { iface, port, family, peer } => {
                let mut target = "tcp dport ".to_owned();
                target.append(decimal_text(*port as u64).as_str());
                target.append(" ");
                target.append(dnat_phrase(*family));
                target.append(" ");
                target.append(peer.as_str());
                match iface {
                    Some(iface) => {
                        if same_text(iface.as_str(), "-") {
                            target
                        } else {
                            let mut text = "iifname \"".to_owned();
                            text.append(iface.as_str());
                            text.append("\" ");
                            text.append(target.as_str());
                            text
                        }
                    },
                    None => target,
                }
            },
            TunnelRule::Mark { tun, mark } => {
                let mut text = "iifname \"".to_owned();
                text.append(tun.as_str());
                text.append("\" meta mark set 0x");
                text.append(hexadecimal_text(*mark as u64).as_str());
                text
            },
        }
    }

    /// Whether the listed text is that of the rule, or differs from it as listings do.
    fn is_written(&self, listed: &str) -> (written: bool)
        ensures
            written == self@.is_written_as(listed@),
    {
        if same_text(listed, self.text().as_str()) {
            return true;
        }
        match self {
            TunnelRule::Masquerade { tun, iface: Some(iface) } => {
                let mut text = "iifname \"".to_owned();
                text.append(tun.as_str());
                text.append("\" oifname \"");
                text.append(iface.as_str());
                text.append("\" masquerade");
                same_text(listed, text.as_str())
            },
            TunnelRule::Mark { tun, mark } => {
                let mut text = "iifname \"".to_owned();
                text.append(tun.as_str());
                text.append("\" meta mark set 0x");
                text.append(hexadecimal_8_text(*mark).as_str());
                same_text(listed, text.as_str())
            },
            _ => false,
        }
    }

    /// Whether a listed rule is taken for this one.
    pub fn matches(&self, listed: &str) -> (same: bool)
        ensures
            same == self@.matches(listed@),
    {
        if self.is_written(listed) {
            return true;
        }
        let found = tokens(listed);
        match self {
            TunnelRule::Masquerade { tun, iface } => {
                is_name_given(&found, "iifname", tun.as_str()) && contains_word(&found, "masquerade")
                    && is_interface_given(&found, "oif", "oifname", iface)
            },
            TunnelRule::Forward { iface, port, family, peer } => {
                let number = decimal_text(*port as u64);
                let entry = vec!["tcp", "dport", number.as_str()];
                let target = vec!["dnat", family_name(*family), "to", peer.as_str()];
                assert(views(entry@) =~= seq!["tcp"@, "dport"@, decimal(*port as nat)]);
                assert(views(target@) =~= seq!["dnat"@, family_word(*family), "to"@, peer@]);
                let none: Option<String> = None;
                let named_iface = match iface {
                    Some(name) => if same_text(name.as_str(), "-") {
                        &none
                    } else {
                        iface
                    },
                    None => iface,
                };
                contains_phrase(&found, &entry) && contains_phrase(&found, &target)
                    && is_interface_given(&found, "iif", "iifname", named_iface)
            },
            TunnelRule::Mark { tun, mark } => {
                is_name_given(&found, "iifname", tun.as_str()) && is_mark_set(&found, *mark)
            },
        }
    }
}

/// Puts the name in quotation marks.
fn quote(name: &str) -> (text: String)
    ensures
        text@ == quoted(name@),
{
    let mut text = "\"".to_owned();
    text.append(name);
    text.append("\"");
    text
}

/// Whether the name holds no quotation mark.
fn holds_no_quote(name: &str) -> (unquoted: bool)
    ensures
        unquoted == is_unquoted(name@),
{
    let chars = chars_of(name);
    for i in 0..chars.len()
        invariant
            chars@ == name@,
            forall|j: int| 0 <= j < i ==> #[trigger] name@[j] != '"',
    {
        if chars[i] == '"' {
            assert(name@[i as int] == '"');
            return false;
        }
    }
    true
}

/// Whether the tokens give the name behind the keyword, in quotation marks or bare.
fn is_name_given(found: &Vec<&str>, keyword: &str, name: &str) -> (given: bool)
    ensures
        given == gives_name(views(found@), keyword@, name@),
{
    let in_quotes = quote(name);
    let phrase = vec![keyword, in_quotes.as_str()];
    let bare = vec![keyword, name];
    assert(views(phrase@) =~= seq![keyword@, quoted(name@)]);
    assert(views(bare@) =~= seq![keyword@, name@]);
    contains_phrase(found, &phrase) || (holds_no_quote(name) && contains_phrase(found, &bare))
}

/// Whether the tokens give the interface behind either keyword, or hold neither keyword where
/// there is none to give.
fn is_interface_given(found: &Vec<&str>, keyword: &str, other: &str, iface: &Option<String>) -> (given:
    bool)
    ensures
        given == gives_interface(views(found@), keyword@, other@, option_view(*iface)),
{
    match iface {
        Some(iface) => is_name_given(found, keyword, iface.as_str()) || is_name_given(
            found,
            other,
            iface.as_str(),
        ),
        None => !contains_word(found, keyword) && !contains_word(found, other),
    }
}

/// Whether the tokens set the mark.
fn is_mark_set(found: &Vec<&str>, mark: u32) -> (set: bool)
    ensures
        set == sets_mark(views(found@), mark),
{
    let phrase = vec!["mark", "set"];
    assert(views(phrase@) =~= seq!["mark"@, "set"@]);
    let mut at: usize = 0;
    while at < found.len() && found.len() - at > 2
        invariant
            at <= found@.len(),
            views(phrase@) == seq!["mark"@, "set"@],
            forall|i: int| 0 <= i < at ==> !sets_mark_at(views(found@), mark, i),
        decreases found@.len() - at,
    {
        if is_phrase_at(found, &phrase, at) {
            assert(views(found@)[at + 2] == found@[at + 2]@);
            match parse_fwmark(found[at + 2]) {
                Ok(value) => {
                    if value == mark {
                        assert(sets_mark_at(views(found@), mark, at as int));
                        return true;
                    }
                },
                Err(_) => {},
            }
        }
        at += 1;
    }
    false
}

/// Returns the word for the address family.
fn family_name(family: Family) -> (word: &'static str)
    ensures
        word@ == family_word(family),
{
    match family {
        Family::V4 => "ip",
        Family::V6 => "ip6",
    }
}

/// Returns the words that send a packet to an address of the family.
fn dnat_phrase(family: Family) -> (phrase: &'static str)
    ensures
        phrase@ == dnat_to(family),
{
    match family {
        Family::V4 => "dnat ip to",
        Family::V6 => "dnat ip6 to",
    }
}

/// The rule for masquerading on any interface names no interface to leave by, unless the tunnel
/// has a name that contains `oif`.
pub proof fn masquerade_on_any_interface_names_none(tun: Seq<char>)
    requires
        !contains(tun, "oif"@),
    ensures
        ({
            let rule = TunnelRuleView::Masquerade { tun, iface: None };
            !contains(rule.text(), "oif"@)
        }),
{
    let text = TunnelRuleView::Masquerade { tun, iface: None }.text();
    reveal_strlit("iifname \"");
    reveal_strlit("\" masquerade");
    reveal_strlit("oif");
    assert forall|at: int| !occurs_at(text, "oif"@, at) by {
        if occurs_at(text, "oif"@, at) {
            let found = text.subrange(at, at + 3);
            assert(found[0] == 'o' && found[1] == 'i' && found[2] == 'f');
            assert(text[at] == 'o' && text[at + 1] == 'i' && text[at + 2] == 'f');
            assert(9 <= at < 9 + tun.len());
            if at + 3 <= 9 + tun.len() {
                assert(tun.subrange(at - 9, at - 6) =~= "oif"@);
                assert(occurs_at(tun, "oif"@, at - 9));
            } else {
                assert(text[(9 + tun.len()) as int] == '"');
            }
        }
    }
}

/// The text that marks packets from the tunnel, with the digits of the mark.
pub open spec fn mark_text(tun: Seq<char>, digits: Seq<char>) -> Seq<char> {
    "iifname \""@ + tun + "\" meta mark set 0x"@ + digits
}

/// The rule for forwarding from any interface names no interface to come in on, unless the peer
/// has an address that contains `iif`.
pub proof fn forward_from_any_interface_names_none(port: u16, family: Family, peer: Seq<char>)
    requires
        !contains(peer, "iif"@),
    ensures
        ({
            let rule = TunnelRuleView::Forward { iface: None, port, family, peer };
            !contains(rule.text(), "iif"@)
        }),
{
    let number = decimal(port as nat);
    let phrase = dnat_to(family);
    let head = "tcp dport "@ + number + " "@ + phrase + " "@;
    let text = head + peer;
    reveal_strlit("iif");
    reveal_strlit("tcp dport ");
    reveal_strlit(" ");
    reveal_strlit("dnat ip to");
    reveal_strlit("dnat ip6 to");
    lemma_decimal_chars(port as nat);
    assert forall|at: int| !occurs_at(text, "iif"@, at) by {
        if occurs_at(text, "iif"@, at) {
            let found = text.subrange(at, at + 3);
            assert(found[0] == 'i' && found[1] == 'i' && found[2] == 'f');
            assert(text[at] == 'i' && text[at + 1] == 'i' && text[at + 2] == 'f');
            if at >= head.len() {
                let start = at - head.len();
                assert(peer.subrange(start, start + 3) =~= "iif"@);
                assert(occurs_at(peer, "iif"@, start));
            } else {
                let start = 10 + number.len() + 1;
                if at < 10 {
                    assert(text[at] == "tcp dport "@[at]);
                } else if at < start - 1 {
                    assert(text[at] == number[at - 10]);
                } else if at == start - 1 {
                    assert(text[at] == ' ');
                } else if at < start + phrase.len() {
                    assert(text[at] == phrase[at - start]);
                    assert(at - start == 5);
                    assert(text[at + 1] == phrase[6]);
                } else {
                    assert(text[at] == ' ');
                }
            }
        }
    }
}

/// A quoted name is a token if it can be told from what follows it.
proof fn lemma_quoted(name: Seq<char>)
    ensures
        quoted(name).len() == name.len() + 2,
        quoted(name)[0] == '"',
        is_clear(name) ==> is_token(quoted(name)),
        quoted(name).subrange(1, quoted(name).len() - 1) == name,
{
    reveal_strlit("\"");
    let text = quoted(name);
    assert(text.subrange(1, text.len() - 1) =~= name);
    if is_clear(name) {
        let last = name.len() as int + 1;
        lemma_first_close(text, 1);
        assert(is_close(text, last));
        let at = first_close(text, 1)->0;
        if at < last {
            assert(text[at] == name[at - 1]);
            if at < name.len() {
                assert(text[at + 1] == name[at]);
            } else {
                assert(text[at + 1] == '"');
            }
        }
    }
}

/// Different names differ in quotation marks too.
proof fn lemma_quoted_injective(a: Seq<char>, b: Seq<char>)
    requires
        quoted(a) == quoted(b),
    ensures
        a == b,
{
    lemma_quoted(a);
    lemma_quoted(b);
}

/// The tokens of a text that masquerades packets, with the interface behind the keyword.
proof fn lemma_masquerade_text(text: Seq<char>, tun: Seq<char>, keyword: Seq<char>, iface: Seq<char>)
    requires
        is_clear(tun),
        is_clear(iface),
        is_token(keyword),
        text == "iifname"@ + seq![' '] + quoted(tun) + seq![' '] + keyword + seq![' '] + quoted(iface)
            + seq![' '] + "masquerade"@,
    ensures
        tokens_of(text) == seq!["iifname"@, quoted(tun), keyword, quoted(iface), "masquerade"@],
{
    lemma_keywords();
    reveal_strlit("iifname");
    reveal_strlit("masquerade");
    lemma_quoted(tun);
    lemma_quoted(iface);
    let all = seq!["iifname"@, quoted(tun), keyword, quoted(iface), "masquerade"@];
    let t1 = all.drop_first();
    let t2 = t1.drop_first();
    let t3 = t2.drop_first();
    let t4 = t3.drop_first();
    reveal_with_fuel(spaced, 6);
    assert(t1 =~= seq![quoted(tun), keyword, quoted(iface), "masquerade"@]);
    assert(t2 =~= seq![keyword, quoted(iface), "masquerade"@]);
    assert(t3 =~= seq![quoted(iface), "masquerade"@]);
    assert(t4 =~= seq!["masquerade"@]);
    assert(text =~= spaced(all));
    spaced_tokens_are_found(all);
}

/// The tokens of the text of a rule for masquerading.
proof fn lemma_masquerade_words(tun: Seq<char>, iface: Option<Seq<char>>)
    requires
        is_clear(tun),
        iface is Some ==> is_clear(iface->0),
    ensures
        ({
            let rule = TunnelRuleView::Masquerade { tun, iface };
            tokens_of(rule.text()) == rule.words()
        }),
        iface is Some ==> tokens_of(masquerade_by_name(tun, iface->0)) == seq![
            "iifname"@,
            quoted(tun),
            "oifname"@,
            quoted(iface->0),
            "masquerade"@,
        ],
{
    let rule = TunnelRuleView::Masquerade { tun, iface };
    reveal_strlit("iifname \"");
    reveal_strlit("iifname");
    reveal_strlit("\"");
    reveal_strlit("\" oif \"");
    reveal_strlit("oif");
    reveal_strlit("\" oifname \"");
    reveal_strlit("oifname");
    reveal_strlit("\" masquerade");
    reveal_strlit("masquerade");
    lemma_keywords();
    lemma_quoted(tun);
    match iface {
        Some(name) => {
            assert(rule.text() =~= "iifname"@ + seq![' '] + quoted(tun) + seq![' '] + "oif"@ + seq![
                ' ',
            ] + quoted(name) + seq![' '] + "masquerade"@);
            assert(masquerade_by_name(tun, name) =~= "iifname"@ + seq![' '] + quoted(tun) + seq![' ']
                + "oifname"@ + seq![' '] + quoted(name) + seq![' '] + "masquerade"@);
            lemma_masquerade_text(rule.text(), tun, "oif"@, name);
            lemma_masquerade_text(masquerade_by_name(tun, name), tun, "oifname"@, name);
        },
        None => {
            let all = rule.words();
            let t1 = all.drop_first();
            let t2 = t1.drop_first();
            reveal_with_fuel(spaced, 4);
            assert(t1 =~= seq![quoted(tun), "masquerade"@]);
            assert(t2 =~= seq!["masquerade"@]);
            assert(rule.text() =~= spaced(all));
            spaced_tokens_are_found(all);
        },
    }
}

/// The tokens of a text that marks packets from the tunnel.
proof fn lemma_mark_words(tun: Seq<char>, digits: Seq<char>)
    requires
        is_clear(tun),
        is_spaceless(digits),
    ensures
        tokens_of(mark_text(tun, digits)) == mark_words(tun, "0x"@ + digits),
{
    reveal_strlit("iifname \"");
    reveal_strlit("iifname");
    reveal_strlit("\"");
    reveal_strlit("\" meta mark set 0x");
    reveal_strlit("meta");
    reveal_strlit("mark");
    reveal_strlit("set");
    reveal_strlit("0x");
    lemma_quoted(tun);
    let value = "0x"@ + digits;
    assert(is_spaceless(value));
    let all = mark_words(tun, value);
    reveal_with_fuel(spaced, 7);
    let t1 = all.drop_first();
    let t2 = t1.drop_first();
    let t3 = t2.drop_first();
    let t4 = t3.drop_first();
    let t5 = t4.drop_first();
    assert(t1 =~= seq![quoted(tun), "meta"@, "mark"@, "set"@, value]);
    assert(t2 =~= seq!["meta"@, "mark"@, "set"@, value]);
    assert(t3 =~= seq!["mark"@, "set"@, value]);
    assert(t4 =~= seq!["set"@, value]);
    assert(t5 =~= seq![value]);
    assert(mark_text(tun, digits) =~= spaced(all));
    spaced_tokens_are_found(all);
}

/// The tokens of the text of a rule for forwarding.
proof fn lemma_forward_words(
    iface: Option<Seq<char>>,
    port: u16,
    family: Family,
    peer: Seq<char>,
)
    requires
        iface is Some ==> is_clear(iface->0),
        is_address(peer),
    ensures
        ({
            let rule = TunnelRuleView::Forward { iface, port, family, peer };
            tokens_of(rule.text()) == rule.words()
        }),
{
    let rule = TunnelRuleView::Forward { iface, port, family, peer };
    let number = decimal(port as nat);
    reveal_strlit("iifname \"");
    reveal_strlit("iifname");
    reveal_strlit("\"");
    reveal_strlit("\" ");
    reveal_strlit("tcp dport ");
    reveal_strlit("tcp");
    reveal_strlit("dport");
    reveal_strlit(" ");
    reveal_strlit("dnat ip to");
    reveal_strlit("dnat ip6 to");
    reveal_strlit("dnat");
    reveal_strlit("ip");
    reveal_strlit("ip6");
    reveal_strlit("to");
    lemma_decimal_chars(port as nat);
    assert(is_spaceless(number));
    assert(is_spaceless(peer)) by {
        assert forall|i: int| 0 <= i < peer.len() implies !is_white_space(
            #[trigger] peer[i],
        ) by {
            assert(is_address_char(peer[i]));
        }
    }
    let word = family_word(family);
    let tail = seq!["tcp"@, "dport"@, number, "dnat"@, word, "to"@, peer];
    let target = "tcp dport "@ + number + " "@ + dnat_to(family) + " "@ + peer;
    let t1 = tail.drop_first();
    let t2 = t1.drop_first();
    let t3 = t2.drop_first();
    let t4 = t3.drop_first();
    let t5 = t4.drop_first();
    let t6 = t5.drop_first();
    assert(target =~= spaced(tail)) by {
        reveal_with_fuel(spaced, 8);
        assert(t1 =~= seq!["dport"@, number, "dnat"@, word, "to"@, peer]);
        assert(t2 =~= seq![number, "dnat"@, word, "to"@, peer]);
        assert(t3 =~= seq!["dnat"@, word, "to"@, peer]);
        assert(t4 =~= seq![word, "to"@, peer]);
        assert(t5 =~= seq!["to"@, peer]);
        assert(t6 =~= seq![peer]);
        assert(dnat_to(family) =~= "dnat"@ + " "@ + word + " "@ + "to"@);
    }
    match named(iface) {
        Some(name) => {
            lemma_quoted(name);
            let all = rule.words();
            let rest = all.drop_first();
            assert(rest =~= seq![quoted(name)] + tail);
            assert(rest.drop_first() =~= tail);
            assert(spaced(rest) == quoted(name) + seq![' '] + spaced(tail));
            assert(spaced(all) == "iifname"@ + seq![' '] + spaced(rest));
            assert(rule.text() =~= spaced(all));
            spaced_tokens_are_found(all);
        },
        None => {
            assert(rule.words() =~= tail);
            assert(rule.text() =~= target);
            spaced_tokens_are_found(tail);
        },
    }
}

/// A text that marks packets from the tunnel shows the rule, whatever notation the mark is in.
proof fn lemma_mark_shown(tun: Seq<char>, mark: u32, digits: Seq<char>)
    requires
        is_clear(tun),
        is_spaceless(digits),
        fwmark_value("0x"@ + digits) == Ok::<nat, IntError>(mark as nat),
    ensures
        (TunnelRuleView::Mark { tun, mark }).is_shown_by(mark_text(tun, digits)),
{
    lemma_mark_words(tun, digits);
    assert(writes_mark(mark_text(tun, digits), tun, mark, "0x"@ + digits));
}

/// How the keywords of rules begin, and how long they are.
proof fn lemma_keywords()
    ensures
        "iifname"@.len() == 7,
        "iifname"@[0] == 'i',
        "iifname"@[1] == 'i',
        "iif"@.len() == 3,
        "iif"@[0] == 'i',
        "iif"@[1] == 'i',
        "oifname"@.len() == 7,
        "oifname"@[0] == 'o',
        "oifname"@[1] == 'i',
        "oif"@.len() == 3,
        "oif"@[0] == 'o',
        "oif"@[1] == 'i',
        "masquerade"@.len() == 10,
        "masquerade"@[0] == 'm',
        "masquerade"@[1] == 'a',
        "tcp"@.len() == 3,
        "tcp"@[0] == 't',
        "tcp"@[1] == 'c',
        "dport"@.len() == 5,
        "dport"@[0] == 'd',
        "dport"@[1] == 'p',
        "dnat"@.len() == 4,
        "dnat"@[0] == 'd',
        "dnat"@[1] == 'n',
        "ip"@.len() == 2,
        "ip"@[0] == 'i',
        "ip"@[1] == 'p',
        "ip6"@.len() == 3,
        "ip6"@[0] == 'i',
        "ip6"@[1] == 'p',
        "to"@.len() == 2,
        "to"@[0] == 't',
        "to"@[1] == 'o',
        "meta"@.len() == 4,
        "meta"@[0] == 'm',
        "meta"@[1] == 'e',
        "mark"@.len() == 4,
        "mark"@[0] == 'm',
        "mark"@[1] == 'a',
        "set"@.len() == 3,
        "set"@[0] == 's',
        "set"@[1] == 'e',
{
    reveal_strlit("iifname");
    reveal_strlit("iif");
    reveal_strlit("oifname");
    reveal_strlit("oif");
    reveal_strlit("masquerade");
    reveal_strlit("tcp");
    reveal_strlit("dport");
    reveal_strlit("dnat");
    reveal_strlit("ip");
    reveal_strlit("ip6");
    reveal_strlit("to");
    reveal_strlit("meta");
    reveal_strlit("mark");
    reveal_strlit("set");
}

/// A listing that shows a rule as it was written shows the rule.
pub proof fn text_shows_the_rule(rule: TunnelRuleView)
    requires
        rule.is_plain(),
    ensures
        rule.is_shown_by(rule.text()),
{
    match rule {
        TunnelRuleView::Masquerade { tun, iface } => {
            lemma_masquerade_words(tun, iface);
        },
        TunnelRuleView::Forward { iface, port, family, peer } => {
            lemma_forward_words(iface, port, family, peer);
        },
        TunnelRuleView::Mark { tun, mark } => {
            lemma_hexadecimal_chars(mark as nat);
            assert(is_spaceless(hexadecimal(mark as nat)));
            hexadecimal_mark_round_trip(mark);
            lemma_mark_shown(tun, mark, hexadecimal(mark as nat));
        },
    }
}

/// A listing that shows the mark with eight digits shows the rule for marking.
pub proof fn padded_mark_shows_the_rule(tun: Seq<char>, mark: u32)
    requires
        is_clear(tun),
    ensures
        ({
            let rule = TunnelRuleView::Mark { tun, mark };
            rule.is_shown_by(mark_text(tun, hexadecimal_8(mark as nat)))
        }),
{
    let digits = hexadecimal_8(mark as nat);
    assert(is_spaceless(digits)) by {
        lemma_hexadecimal_chars(mark as nat);
    }
    assert(fwmark_value("0x"@ + digits) == Ok::<nat, IntError>(mark as nat)) by {
        listed_mark_round_trip(mark);
    }
    lemma_mark_shown(tun, mark, digits);
}

/// A rule is told by what shows it.
proof fn lemma_shown_is_told(rule: TunnelRuleView, listed: Seq<char>)
    requires
        rule.is_plain(),
        rule.is_shown_by(listed),
    ensures
        rule.is_told_by(tokens_of(listed)),
{
    let all = tokens_of(listed);
    lemma_keywords();
    match rule {
        TunnelRuleView::Masquerade { tun, iface } => {
            lemma_quoted(tun);
            assert(phrase_at(all, seq!["iifname"@, quoted(tun)], 0));
            assert(all[all.len() - 1] == "masquerade"@);
            if iface is Some {
                assert(phrase_at(all, seq!["oif"@, quoted(iface->0)], 2));
            }
        },
        TunnelRuleView::Forward { iface, port, family, peer } => {
            let number = decimal(port as nat);
            let base: int = if named(iface) is Some {
                2
            } else {
                0
            };
            assert(phrase_at(all, seq!["tcp"@, "dport"@, number], base));
            assert(phrase_at(all, seq!["dnat"@, family_word(family), "to"@, peer], base + 3));
            if named(iface) is Some {
                assert(phrase_at(all, seq!["iifname"@, quoted(named(iface)->0)], 0));
            } else {
                lemma_forward_keywords(iface, port, family, peer);
            }
        },
        TunnelRuleView::Mark { tun, mark } => {
            assert(phrase_at(all, seq!["iifname"@, quoted(tun)], 0));
            assert(sets_mark_at(all, mark, 3));
        },
    }
}

/// A plain rule is told by what it is written as.
pub(crate) proof fn lemma_written_is_told(rule: TunnelRuleView, listed: Seq<char>)
    requires
        rule.is_plain(),
        rule.is_written_as(listed),
    ensures
        rule.is_told_by(tokens_of(listed)),
{
    if listed == rule.text() {
        text_shows_the_rule(rule);
        lemma_shown_is_told(rule, listed);
    } else {
        match rule {
            TunnelRuleView::Masquerade { tun, iface } => {
                let all = tokens_of(listed);
                lemma_masquerade_words(tun, iface);
                assert(phrase_at(all, seq!["iifname"@, quoted(tun)], 0));
                assert(phrase_at(all, seq!["oifname"@, quoted(iface->0)], 2));
                assert(all[4] == "masquerade"@);
            },
            TunnelRuleView::Mark { tun, mark } => {
                padded_mark_shows_the_rule(tun, mark);
                lemma_shown_is_told(rule, listed);
            },
            _ => {},
        }
    }
}

/// A rule is found again where a listing shows it, token by token.
pub proof fn shown_rule_is_found(rule: TunnelRuleView, listed: Seq<char>)
    requires
        rule.is_plain(),
        rule.is_shown_by(listed),
    ensures
        rule.matches(listed),
{
    lemma_shown_is_told(rule, listed);
}

/// A rule is found again where a listing shows it as it was written, whatever its names are.
pub proof fn rule_is_found(rule: TunnelRuleView)
    ensures
        rule.matches(rule.text()),
{
}

/// A rule for masquerading is found again where a listing writes `oifname` for `oif`, whatever
/// its names are.
pub proof fn masquerade_by_name_is_found(tun: Seq<char>, iface: Seq<char>)
    ensures
        ({
            let rule = TunnelRuleView::Masquerade { tun, iface: Some(iface) };
            rule.matches(masquerade_by_name(tun, iface))
        }),
{
}

/// A rule for marking is found again where a listing writes the mark with eight digits, whatever
/// the name of the tunnel is.
pub proof fn padded_mark_is_found(tun: Seq<char>, mark: u32)
    ensures
        ({
            let rule = TunnelRuleView::Mark { tun, mark };
            rule.matches(mark_text(tun, hexadecimal_8(mark as nat)))
        }),
{
}

/// A name is given only where its keyword stands.
proof fn lemma_keyword_needed(all: Seq<Seq<char>>, keyword: Seq<char>, name: Seq<char>)
    requires
        gives_name(all, keyword, name),
    ensures
        all.contains(keyword),
{
    let phrase = seq![keyword, quoted(name)];
    let bare = seq![keyword, name];
    if has_phrase(all, phrase) {
        let at = choose|at: int| phrase_at(all, phrase, at);
        assert(all[at + 0] == phrase[0]);
    } else {
        let at = choose|at: int| phrase_at(all, bare, at);
        assert(all[at + 0] == bare[0]);
    }
}

/// A name that is given behind a keyword is the one that stands quoted behind its only place.
proof fn lemma_given_name(
    all: Seq<Seq<char>>,
    keyword: Seq<char>,
    name: Seq<char>,
    place: int,
    other: Seq<char>,
)
    requires
        gives_name(all, keyword, name),
        forall|i: int| 0 <= i < all.len() && #[trigger] all[i] == keyword ==> i == place,
        0 <= place,
        place + 1 < all.len() ==> all[place + 1] == quoted(other),
    ensures
        name == other,
        place + 1 < all.len(),
        all[place] == keyword,
{
    let phrase = seq![keyword, quoted(name)];
    let bare = seq![keyword, name];
    if has_phrase(all, phrase) {
        let at = choose|at: int| phrase_at(all, phrase, at);
        assert(all[at + 0] == phrase[0] && all[at + 1] == phrase[1]);
        lemma_quoted_injective(name, other);
    } else {
        let at = choose|at: int| phrase_at(all, bare, at);
        assert(all[at + 0] == bare[0] && all[at + 1] == bare[1]);
        lemma_quoted(other);
        assert(name[0] == '"');
    }
}

/// Where the keywords stand among the words of a rule for forwarding.
proof fn lemma_forward_keywords(
    iface: Option<Seq<char>>,
    port: u16,
    family: Family,
    peer: Seq<char>,
)
    requires
        is_address(peer),
    ensures
        ({
            let all = (TunnelRuleView::Forward { iface, port, family, peer }).words();
            let base: int = if named(iface) is Some {
                2
            } else {
                0
            };
            forall|i: int|
                #![trigger all[i]]
                0 <= i < all.len() ==> {
                    &&& all[i] == "tcp"@ ==> i == base
                    &&& all[i] == "dnat"@ ==> i == base + 3
                    &&& all[i] != "iif"@
                    &&& all[i] == "iifname"@ ==> i == 0 && base == 2
                }
        }),
{
    let all = (TunnelRuleView::Forward { iface, port, family, peer }).words();
    let number = decimal(port as nat);
    lemma_keywords();
    lemma_decimal_chars(port as nat);
    assert('0' <= number[0] <= '9');
    if peer.len() > 1 {
        assert(is_address_char(peer[1]));
    }
    assert(is_address_char(peer[0]));
    if named(iface) is Some {
        lemma_quoted(named(iface)->0);
    }
    assert(peer != "tcp"@ && peer != "dnat"@ && peer != "iif"@ && peer != "iifname"@);
    assert(number != "tcp"@ && number != "dnat"@ && number != "iif"@ && number != "iifname"@);
}

/// Rules of one chain that are written differently are told apart: where a listing shows one,
/// no other is found.
pub proof fn rules_are_told_apart(a: TunnelRuleView, b: TunnelRuleView, listed: Seq<char>)
    requires
        a.is_plain(),
        b.is_plain(),
        b.is_shown_by(listed),
        a.chain() == b.chain(),
        a.as_written() != b.as_written(),
    ensures
        !a.matches(listed),
{
    let all = tokens_of(listed);
    reveal_strlit("postrouting");
    reveal_strlit("prerouting");
    reveal_strlit("prerouting_mangle");
    assert("postrouting"@.len() == 11 && "prerouting"@.len() == 10 && "prerouting_mangle"@.len()
        == 17);
    if a.matches(listed) {
        if a.is_written_as(listed) {
            lemma_written_is_told(a, listed);
        }
        match (a, b) {
            (
                TunnelRuleView::Masquerade { tun, iface },
                TunnelRuleView::Masquerade { tun: other, iface: elsewhere },
            ) => {
                lemma_same_masquerade(tun, iface, other, elsewhere, listed);
            },
            (
                TunnelRuleView::Forward { iface, port, family, peer },
                TunnelRuleView::Forward { iface: elsewhere, port: port2, family: family2, peer: peer2 },
            ) => {
                lemma_same_forward(a, elsewhere, port2, family2, peer2, listed);
            },
            (
                TunnelRuleView::Mark { tun, mark },
                TunnelRuleView::Mark { tun: other, mark: another },
            ) => {
                lemma_same_mark(tun, mark, other, another, listed);
            },
            _ => {},
        }
    }
}

/// A rule for masquerading is taken for no other.
proof fn lemma_same_masquerade(
    tun: Seq<char>,
    iface: Option<Seq<char>>,
    other: Seq<char>,
    elsewhere: Option<Seq<char>>,
    listed: Seq<char>,
)
    requires
        (TunnelRuleView::Masquerade { tun: other, iface: elsewhere }).is_shown_by(listed),
        (TunnelRuleView::Masquerade { tun, iface }).is_told_by(tokens_of(listed)),
    ensures
        tun == other,
        iface == elsewhere,
{
    let all = tokens_of(listed);
    lemma_keywords();
    lemma_quoted(other);
    if elsewhere is Some {
        lemma_quoted(elsewhere->0);
    }
    lemma_given_name(all, "iifname"@, tun, 0, other);
    match iface {
        Some(name) => {
            let there = if elsewhere is Some {
                elsewhere->0
            } else {
                name
            };
            if gives_name(all, "oif"@, name) {
                lemma_given_name(all, "oif"@, name, 2, there);
            } else {
                lemma_given_name(all, "oifname"@, name, 2, there);
            }
        },
        None => {
            if elsewhere is Some {
                assert(all[2] == "oif"@);
            }
        },
    }
}

/// The keyword before the name of a tunnel is no mark.
proof fn lemma_keyword_is_no_mark()
    ensures
        fwmark_value("iifname"@) is Err,
{
    let text = "iifname"@;
    reveal_strlit("iifname");
    reveal_strlit("0x");
    reveal_strlit("0X");
    assert(text.skip(0) =~= text);
    assert(text.take(7) =~= text);
    assert(trimmed(text) =~= text);
    if begins_with(text, "0x"@) {
        assert(text.subrange(0, 2)[0] == 'i');
    }
    if begins_with(text, "0X"@) {
        assert(text.subrange(0, 2)[0] == 'i');
    }
    let first = text.take(1);
    assert(first.drop_last() =~= Seq::<char>::empty());
    assert(first.last() == 'i');
    assert(digits_value(first, Radix::Ten, u32::MAX as nat) is Err);
    lemma_prefix_error(text, 1, Radix::Ten, u32::MAX as nat);
}

/// A rule for marking is taken for no other.
proof fn lemma_same_mark(
    tun: Seq<char>,
    mark: u32,
    other: Seq<char>,
    another: u32,
    listed: Seq<char>,
)
    requires
        (TunnelRuleView::Mark { tun: other, mark: another }).is_shown_by(listed),
        (TunnelRuleView::Mark { tun, mark }).is_told_by(tokens_of(listed)),
    ensures
        tun == other,
        mark == another,
{
    let all = tokens_of(listed);
    let value = choose|value: Seq<char>| writes_mark(listed, other, another, value);
    lemma_keywords();
    lemma_quoted(other);
    assert(value != "iifname"@) by {
        if value == "iifname"@ {
            lemma_keyword_is_no_mark();
        }
    }
    lemma_given_name(all, "iifname"@, tun, 0, other);
    let setting = seq!["mark"@, "set"@];
    let at = choose|at: int| sets_mark_at(all, mark, at);
    assert(all[at + 0] == setting[0] && all[at + 1] == setting[1]);
    assert(at == 3);
}

/// A rule for forwarding is taken for no other.
proof fn lemma_same_forward(
    rule: TunnelRuleView,
    elsewhere: Option<Seq<char>>,
    port: u16,
    family: Family,
    peer: Seq<char>,
    listed: Seq<char>,
)
    requires
        rule is Forward,
        is_address(peer),
        (TunnelRuleView::Forward { iface: elsewhere, port, family, peer }).is_shown_by(listed),
        rule.is_told_by(tokens_of(listed)),
    ensures
        rule.as_written() == (TunnelRuleView::Forward {
            iface: named(elsewhere),
            port,
            family,
            peer,
        }),
{
    let all = tokens_of(listed);
    let base: int = if named(elsewhere) is Some {
        2
    } else {
        0
    };
    lemma_forward_keywords(elsewhere, port, family, peer);
    lemma_keywords();
    let entry = seq!["tcp"@, "dport"@, decimal(rule->port as nat)];
    let at = choose|at: int| phrase_at(all, entry, at);
    assert(all[at + 0] == entry[0] && all[at + 2] == entry[2]);
    assert(at == base);
    lemma_decimal_injective(rule->port as nat, port as nat);
    let target = seq!["dnat"@, family_word(rule->family), "to"@, rule->peer];
    let at = choose|at: int| phrase_at(all, target, at);
    assert(all[at + 0] == target[0] && all[at + 1] == target[1] && all[at + 3] == target[3]);
    assert(at == base + 3);
    match named(rule->Forward_iface) {
        Some(name) => {
            let there = if named(elsewhere) is Some {
                named(elsewhere)->0
            } else {
                name
            };
            assert(gives_name(all, "iifname"@, name)) by {
                if gives_name(all, "iif"@, name) {
                    lemma_keyword_needed(all, "iif"@, name);
                }
            }
            lemma_keyword_needed(all, "iifname"@, name);
            assert(named(elsewhere) is Some);
            lemma_given_name(all, "iifname"@, name, 0, there);
        },
        None => {
            if named(elsewhere) is Some {
                assert(all[0] == "iifname"@);
            }
        },
    }
}

/// A rule for one port is never taken for a rule for another.
pub proof fn other_port_is_told_apart(rule: TunnelRuleView, other: TunnelRuleView)
    requires
        rule is Forward,
        other is Forward,
        rule.is_plain(),
        other.is_plain(),
        rule->port != other->port,
    ensures
        !rule.matches(other.text()),
{
    text_shows_the_rule(other);
    rules_are_told_apart(rule, other, other.text());
}

/// A rule for masquerading packets of one tunnel is never taken for that of another.
pub proof fn other_tunnel_is_told_apart(rule: TunnelRuleView, other: TunnelRuleView)
    requires
        rule is Masquerade,
        other is Masquerade,
        rule.is_plain(),
        other.is_plain(),
        rule->Masquerade_tun != other->Masquerade_tun,
    ensures
        !rule.matches(other.text()),
{
    text_shows_the_rule(other);
    rules_are_told_apart(rule, other, other.text());
}

/// A rule for marking packets is never taken for that of another tunnel or with another mark, in
/// whichever notation a listing shows the mark.
pub proof fn other_mark_is_told_apart(rule: TunnelRuleView, other: TunnelRuleView)
    requires
        rule is Mark,
        other is Mark,
        rule.is_plain(),
        other.is_plain(),
        rule->Mark_tun != other->Mark_tun || rule->mark != other->mark,
    ensures
        !rule.matches(other.text()),
        !rule.matches(mark_text(other->Mark_tun, hexadecimal_8(other->mark as nat))),
{
    text_shows_the_rule(other);
    rules_are_told_apart(rule, other, other.text());
    padded_mark_shows_the_rule(other->Mark_tun, other->mark);
    rules_are_told_apart(rule, other, mark_text(other->Mark_tun, hexadecimal_8(other->mark as nat)));
}

} // verus!
