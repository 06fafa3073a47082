//! Removing the rules that a guard keeps, one request at a time.
//!
//! A `Removal` says which request it needs next, if any; `resume` takes the outcome and goes
//! on. What fails is passed over.

use vstd::prelude::*;
use vstd::string::*;
use crate::command::{
    delete_chain, delete_chain_args, delete_rule, delete_rule_args, delete_table, delete_table_args,
    list_chain, list_chain_args, list_table, list_table_args, nft_request, nft_run, string_views,
    utf8_lossy, utf8_lossy_text, Outcome, OutcomeView, Request, RequestView,
};
use crate::guard::{rule_views, NftRule, NftRuleGuard, NftRuleGuardView, NftRuleView};
use crate::listing::{chain_is_bare, holds_no_chains, holds_no_rules, table_is_bare};
use crate::number::{decimal, decimal_text};
use crate::text::same_text;

verus! {

/// Where a removal stands.
#[derive(Debug)]
enum Stage {
    /// The rule is deleted; more follow, and then the chains are looked at.
    DeletingRule { rule: NftRule, more: Vec<NftRule>, chains: Vec<String> },
    /// The chain is listed, to see whether it is empty.
    ListingChain { chain: String, rest: Vec<String> },
    /// The chain is empty and is deleted.
    DeletingChain { chain: String, rest: Vec<String> },
    /// The table is listed, to see whether it is empty.
    ListingTable,
    /// The table is empty and is deleted.
    DeletingTable,
    /// Nothing is left to do.
    Finished,
}

/// The model of a `Removal`.
pub enum RemovalView {
    DeletingRule { rule: NftRuleView, more: Seq<NftRuleView>, chains: Seq<Seq<char>> },
    ListingChain { chain: Seq<char>, rest: Seq<Seq<char>> },
    DeletingChain { chain: Seq<char>, rest: Seq<Seq<char>> },
    ListingTable,
    DeletingTable,
    Finished,
}

/// A removal that is under way.
#[derive(Debug)]
pub struct Removal {
    stage: Stage,
}

impl View for Removal {
    type V = RemovalView;

    closed spec fn view(&self) -> RemovalView {
        match self.stage {
            Stage::DeletingRule { rule, more, chains } => RemovalView::DeletingRule {
                rule: rule@,
                more: rule_views(more@),
                chains: string_views(chains@),
            },
            Stage::ListingChain { chain, rest } => RemovalView::ListingChain {
                chain: chain@,
                rest: string_views(rest@),
            },
            Stage::DeletingChain { chain, rest } => RemovalView::DeletingChain {
                chain: chain@,
                rest: string_views(rest@),
            },
            Stage::ListingTable => RemovalView::ListingTable,
            Stage::DeletingTable => RemovalView::DeletingTable,
            Stage::Finished => RemovalView::Finished,
        }
    }
}

/// The chains with one more behind them, unless it is among them.
pub open spec fn joined_by(chains: Seq<Seq<char>>, chain: Seq<char>) -> Seq<Seq<char>> {
    if chains.contains(chain) {
        chains
    } else {
        chains.push(chain)
    }
}

/// The chains of the rules, each once, in the order in which they first occur.
pub open spec fn chains_of(rules: Seq<NftRuleView>) -> Seq<Seq<char>>
    decreases rules.len(),
{
    if rules.len() == 0 {
        seq![]
    } else {
        joined_by(chains_of(rules.drop_last()), rules.last().chain)
    }
}

/// The chains that a removal looks at: those of the rules, and whichever else a setup makes.
pub open spec fn visited_chains(rules: Seq<NftRuleView>) -> Seq<Seq<char>> {
    joined_by(
        joined_by(joined_by(chains_of(rules), "postrouting"@), "prerouting"@),
        "prerouting_mangle"@,
    )
}

/// The removal that deletes the rules and then looks at the chains.
pub open spec fn deleting(rules: Seq<NftRuleView>, chains: Seq<Seq<char>>) -> RemovalView {
    if rules.len() == 0 {
        looking_at(chains)
    } else {
        RemovalView::DeletingRule { rule: rules[0], more: rules.drop_first(), chains }
    }
}

/// The removal that looks at the chains, and then at the table.
pub open spec fn looking_at(chains: Seq<Seq<char>>) -> RemovalView {
    if chains.len() > 0 {
        RemovalView::ListingChain { chain: chains[0], rest: chains.drop_first() }
    } else {
        RemovalView::ListingTable
    }
}

/// The removal of the rules that the guard keeps, of those of the chains that are then empty, and
/// of the table if it is, unless the rules were removed before.
pub open spec fn removal_over(guard: NftRuleGuardView, chains: Seq<Seq<char>>) -> RemovalView {
    if guard.removed {
        RemovalView::Finished
    } else {
        deleting(guard.rules, chains)
    }
}

/// The removal of the rules that the guard keeps, and of what is then empty.
pub open spec fn removal_of(guard: NftRuleGuardView) -> RemovalView {
    removal_over(guard, visited_chains(guard.rules))
}

/// The request was carried out.
pub open spec fn succeeded<E>(outcome: OutcomeView<E>) -> bool {
    outcome is Finished && outcome->Finished_0.success
}

/// The outcome of listing a chain shows that no rule is in it.
pub open spec fn shows_bare_chain<E>(outcome: OutcomeView<E>) -> bool {
    succeeded(outcome) && chain_is_bare(utf8_lossy_text(outcome->Finished_0.stdout))
}

/// The outcome of listing the table shows that no chain is in it.
pub open spec fn shows_bare_table<E>(outcome: OutcomeView<E>) -> bool {
    succeeded(outcome) && table_is_bare(utf8_lossy_text(outcome->Finished_0.stdout))
}

impl RemovalView {
    /// The request that the removal needs next.
    pub open spec fn request(self) -> Option<RequestView> {
        match self {
            RemovalView::DeletingRule { rule, .. } => Some(
                nft_run(delete_rule_args(rule.chain, decimal(rule.handle as nat))),
            ),
            RemovalView::ListingChain { chain, .. } => Some(nft_run(list_chain_args(chain))),
            RemovalView::DeletingChain { chain, .. } => Some(nft_run(delete_chain_args(chain))),
            RemovalView::ListingTable => Some(nft_run(list_table_args())),
            RemovalView::DeletingTable => Some(nft_run(delete_table_args())),
            RemovalView::Finished => None,
        }
    }

    /// What becomes of the removal when its request came to this outcome.
    pub open spec fn resumed<E>(self, outcome: OutcomeView<E>) -> RemovalView {
        match self {
            RemovalView::DeletingRule { more, chains, .. } => deleting(more, chains),
            RemovalView::ListingChain { chain, rest } => {
                if shows_bare_chain(outcome) {
                    RemovalView::DeletingChain { chain, rest }
                } else {
                    looking_at(rest)
                }
            },
            RemovalView::DeletingChain { rest, .. } => looking_at(rest),
            RemovalView::ListingTable => if shows_bare_table(outcome) {
                RemovalView::DeletingTable
            } else {
                RemovalView::Finished
            },
            RemovalView::DeletingTable => RemovalView::Finished,
            RemovalView::Finished => RemovalView::Finished,
        }
    }
}

/// Copies the rules.
fn copy_rules(rules: &Vec<NftRule>) -> (copies: Vec<NftRule>)
    ensures
        rule_views(copies@) == rule_views(rules@),
{
    let mut copies: Vec<NftRule> = Vec::new();
    for i in 0..rules.len()
        invariant
            rule_views(copies@) == rule_views(rules@).take(i as int),
    {
        let ghost before = rule_views(copies@);
        let copy = rules[i].clone();
        copies.push(copy);
        assert(rule_views(copies@) =~= before.push(copy@));
        assert(rule_views(rules@).take(i + 1) =~= rule_views(rules@).take(i as int).push(copy@));
    }
    assert(rule_views(rules@).take(rules@.len() as int) == rule_views(rules@));
    copies
}

/// Whether the name is among the names.
fn is_among(names: &Vec<String>, name: &str) -> (found: bool)
    ensures
        found == string_views(names@).contains(name@),
{
    for i in 0..names.len()
        invariant
            forall|j: int| 0 <= j < i ==> (#[trigger] names@[j])@ != name@,
    {
        if same_text(names[i].as_str(), name) {
            assert(string_views(names@)[i as int] == name@);
            return true;
        }
    }
    assert(!string_views(names@).contains(name@)) by {
        assert forall|j: int| 0 <= j < names@.len() implies string_views(names@)[j] != name@ by {
            assert(string_views(names@)[j] == names@[j]@);
        }
    }
    false
}

/// Puts the chain behind the others, unless it is among them.
fn join_chain(chains: &mut Vec<String>, chain: &str)
    ensures
        string_views(final(chains)@) == joined_by(string_views(old(chains)@), chain@),
{
    if !is_among(chains, chain) {
        let name = chain.to_owned();
        chains.push(name);
        assert(string_views(chains@) =~= string_views(old(chains)@).push(name@));
    }
}

/// The chains that a removal looks at.
fn collect_chains(rules: &Vec<NftRule>) -> (chains: Vec<String>)
    ensures
        string_views(chains@) == visited_chains(rule_views(rules@)),
{
    let mut chains: Vec<String> = Vec::new();
    let ghost all = rule_views(rules@);
    assert(string_views(chains@) =~= chains_of(all.take(0)));
    for i in 0..rules.len()
        invariant
            all == rule_views(rules@),
            string_views(chains@) == chains_of(all.take(i as int)),
    {
        assert(all.take(i + 1).drop_last() == all.take(i as int));
        assert(all.take(i + 1).last().chain == rules@[i as int].chain@);
        join_chain(&mut chains, rules[i].chain.as_str());
    }
    assert(all.take(rules@.len() as int) == all);
    join_chain(&mut chains, "postrouting");
    join_chain(&mut chains, "prerouting");
    join_chain(&mut chains, "prerouting_mangle");
    chains
}

/// The removal that looks at the chains, and then at the table.
fn look_at(mut chains: Vec<String>) -> (removal: Removal)
    ensures
        removal@ == looking_at(string_views(chains@)),
{
    if chains.len() > 0 {
        let ghost all = string_views(chains@);
        let chain = chains.remove(0);
        assert(string_views(chains@) =~= all.drop_first());
        Removal { stage: Stage::ListingChain { chain, rest: chains } }
    } else {
        Removal { stage: Stage::ListingTable }
    }
}

/// The removal that deletes the rules and then looks at the chains.
fn delete_all(mut rules: Vec<NftRule>, chains: Vec<String>) -> (removal: Removal)
    ensures
        removal@ == deleting(rule_views(rules@), string_views(chains@)),
{
    if rules.len() == 0 {
        return look_at(chains);
    }
    let ghost all = rule_views(rules@);
    let rule = rules.remove(0);
    assert(rule_views(rules@) =~= all.drop_first());
    Removal { stage: Stage::DeletingRule { rule, more: rules, chains } }
}

impl NftRuleGuard {
    /// Removes the nftables rules that were added by this guard in a best-effort manner.
    /// Also deletes empty chains and the `phantun` table if no rules or chains remain.
    ///
    /// The removal is driven by `Removal::request` and `Removal::resume`. A guard whose rules
    /// were removed before has nothing to remove.
    pub fn remove_rules(&mut self) -> (removal: Removal)
        ensures
            removal@ == removal_of(old(self)@),
            final(self)@ == old(self)@.spent(),
    {
        let chains = collect_chains(&self.rules);
        self.remove_over(chains)
    }

    /// Removes the rules, and those of the chains that are then empty.
    pub(crate) fn remove_over(&mut self, chains: Vec<String>) -> (removal: Removal)
        ensures
            removal@ == removal_over(old(self)@, string_views(chains@)),
            final(self)@ == old(self)@.spent(),
    {
        if self.removed {
            return Removal { stage: Stage::Finished };
        }
        self.removed = true;
        delete_all(copy_rules(&self.rules), chains)
    }
}

impl Removal {
    /// Returns a removal with nothing to do.
    pub(crate) fn nothing() -> (removal: Removal)
        ensures
            removal@ == RemovalView::Finished,
    {
        Removal { stage: Stage::Finished }
    }

    /// Returns the request that the removal needs next, or nothing when it is finished.
    pub fn request(&self) -> (request: Option<Request>)
        ensures
            match request {
                Some(request) => self@.request() == Some(request@),
                None => self@.request() is None,
            },
    {
        match &self.stage {
            Stage::DeletingRule { rule, .. } => {
                let handle = decimal_text(rule.handle);
                Some(nft_request(delete_rule(rule.chain.as_str(), handle.as_str())))
            },
            Stage::ListingChain { chain, .. } => Some(nft_request(list_chain(chain.as_str()))),
            Stage::DeletingChain { chain, .. } => Some(nft_request(delete_chain(chain.as_str()))),
            Stage::ListingTable => Some(nft_request(list_table())),
            Stage::DeletingTable => Some(nft_request(delete_table())),
            Stage::Finished => None,
        }
    }

    /// Goes on with the removal after its request came to this outcome.
    pub fn resume<E>(self, outcome: Outcome<E>) -> (removal: Removal)
        ensures
            removal@ == self@.resumed(outcome@),
    {
        match self.stage {
            Stage::DeletingRule { more, chains, .. } => delete_all(more, chains),
            Stage::ListingChain { chain, rest } => {
                let bare = match outcome {
                    Outcome::Failed { .. } => false,
                    Outcome::Finished(output) => output.success && holds_no_rules(
                        utf8_lossy(output.stdout.as_slice()).as_str(),
                    ),
                };
                if bare {
                    Removal { stage: Stage::DeletingChain { chain, rest } }
                } else {
                    look_at(rest)
                }
            },
            Stage::DeletingChain { rest, .. } => look_at(rest),
            Stage::ListingTable => {
                let bare = match outcome {
                    Outcome::Failed { .. } => false,
                    Outcome::Finished(output) => output.success && holds_no_chains(
                        utf8_lossy(output.stdout.as_slice()).as_str(),
                    ),
                };
                if bare {
                    Removal { stage: Stage::DeletingTable }
                } else {
                    Removal { stage: Stage::Finished }
                }
            },
            Stage::DeletingTable => Removal { stage: Stage::Finished },
            Stage::Finished => Removal { stage: Stage::Finished },
        }
    }
}

} // verus!
