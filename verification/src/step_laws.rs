//! What a setup and a removal ask for, and what each outcome comes to, step by step.

use vstd::prelude::*;
use crate::command::{
    executed, joined, nft_failed_message, utf8_lossy_text, NftErrorView, OutcomeView, OutputView,
    RequestView,
};
use crate::guard::NftRuleGuardView;
use crate::interface::Probe;
use crate::laws::{every_chain_is_looked_at, removal_after, steps_left};
use crate::listing::{chain_is_bare, listed_rules, shown_rules, table_is_bare, ListedRule};
use crate::number::decimal;
use crate::removal::{removal_of, removal_over, visited_chains, RemovalView};
use crate::rule::TunnelRuleView;
use crate::ruleset::begins;
use crate::setup::{
    advanced, failed, matching_handles, registered, step_args, Lookup, ProgressView, SetupView,
    StageView, StepView,
};
use crate::text::{lines_of, trimmed};

verus! {

// ---- what is asked for ----

/// The request is to run `nft` with these words before the last ones, and with the table of the
/// tunnels between them.
pub open spec fn runs_nft(
    request: RequestView,
    before: Seq<Seq<char>>,
    after: Seq<Seq<char>>,
) -> bool {
    match request {
        RequestView::ReadFile(_) => false,
        RequestView::Run { program, args } => program == "nft"@ && args == before + seq![
            "inet"@,
            "phantun"@,
        ] + after,
    }
}

/// What a setup asks for: a search asks its source; a step adds the table, the chain or the rule,
/// or lists the chain of the rule with handles. All are in the table of the tunnels.
pub proof fn setup_asks_for_its_step(setup: SetupView)
    ensures
        match setup.stage {
            StageView::Detecting { probe, .. } => match probe {
                Probe::RouteTable => setup.request() == RequestView::ReadFile(
                    "/proc/net/route"@,
                ),
                Probe::DefaultRoute => setup.request() == (RequestView::Run {
                    program: "ip"@,
                    args: seq!["route"@, "show"@, "default"@],
                }),
                Probe::DeviceTable => setup.request() == RequestView::ReadFile(
                    "/proc/net/dev"@,
                ),
            },
            StageView::Installing { step, lookup, .. } => match step {
                StepView::Table => runs_nft(setup.request(), seq!["add"@, "table"@], seq![]),
                StepView::Chain { name, definition } => runs_nft(
                    setup.request(),
                    seq!["add"@, "chain"@],
                    seq![name, definition],
                ),
                StepView::Rule(rule) => if lookup == Lookup::Adding {
                    runs_nft(
                        setup.request(),
                        seq!["add"@, "rule"@],
                        seq![rule.chain(), rule.text()],
                    )
                } else {
                    runs_nft(
                        setup.request(),
                        seq!["-a"@, "list"@, "chain"@],
                        seq![rule.chain()],
                    )
                },
            },
        },
{
    if setup.stage is Installing {
        let args = setup.request()->args;
        match setup.stage->step {
            StepView::Table => {
                assert(args =~= seq!["add"@, "table"@] + seq!["inet"@, "phantun"@] + Seq::<
                    Seq<char>,
                >::empty());
            },
            StepView::Chain { name, definition } => {
                assert(args =~= seq!["add"@, "chain"@] + seq!["inet"@, "phantun"@] + seq![
                    name,
                    definition,
                ]);
            },
            StepView::Rule(rule) => if setup.stage->lookup == Lookup::Adding {
                assert(args =~= seq!["add"@, "rule"@] + seq!["inet"@, "phantun"@] + seq![
                    rule.chain(),
                    rule.text(),
                ]);
            } else {
                assert(args =~= seq!["-a"@, "list"@, "chain"@] + seq!["inet"@, "phantun"@] + seq![
                    rule.chain(),
                ]);
            },
        }
    }
}

/// What a removal asks for: it deletes a rule by chain and handle, lists a chain or the table, or
/// deletes it. All are in the table of the tunnels. When it is finished it asks for nothing.
pub proof fn removal_asks_for_its_step(removal: RemovalView)
    ensures
        match removal {
            RemovalView::DeletingRule { rule, .. } => removal.request() is Some && runs_nft(
                removal.request()->0,
                seq!["delete"@, "rule"@],
                seq![rule.chain, "handle"@, decimal(rule.handle as nat)],
            ),
            RemovalView::ListingChain { chain, .. } => removal.request() is Some && runs_nft(
                removal.request()->0,
                seq!["-a"@, "list"@, "chain"@],
                seq![chain],
            ),
            RemovalView::DeletingChain { chain, .. } => removal.request() is Some && runs_nft(
                removal.request()->0,
                seq!["delete"@, "chain"@],
                seq![chain],
            ),
            RemovalView::ListingTable => removal.request() is Some && runs_nft(
                removal.request()->0,
                seq!["list"@, "table"@],
                seq![],
            ),
            RemovalView::DeletingTable => removal.request() is Some && runs_nft(
                removal.request()->0,
                seq!["delete"@, "table"@],
                seq![],
            ),
            RemovalView::Finished => removal.request() is None,
        },
{
    let none = Seq::<Seq<char>>::empty();
    let table = seq!["inet"@, "phantun"@];
    match removal {
        RemovalView::DeletingRule { rule, .. } => {
            assert(removal.request()->0->args =~= seq!["delete"@, "rule"@] + table + seq![
                rule.chain,
                "handle"@,
                decimal(rule.handle as nat),
            ]);
        },
        RemovalView::ListingChain { chain, .. } => {
            assert(removal.request()->0->args =~= seq!["-a"@, "list"@, "chain"@] + table + seq![
                chain,
            ]);
        },
        RemovalView::DeletingChain { chain, .. } => {
            assert(removal.request()->0->args =~= seq!["delete"@, "chain"@] + table + seq![chain]);
        },
        RemovalView::ListingTable => {
            assert(removal.request()->0->args =~= seq!["list"@, "table"@] + table + none);
        },
        RemovalView::DeletingTable => {
            assert(removal.request()->0->args =~= seq!["delete"@, "table"@] + table + none);
        },
        RemovalView::Finished => {},
    }
}

// ---- how outcomes are judged ----

/// `nft` has succeeded exactly if it ran to its end and says so, and then what it wrote is handed
/// on. That there is no `nft` is told from any other reason for which it could not be run, and
/// from a failure that it reports.
pub proof fn outcomes_are_told_apart<E>(args: Seq<Seq<char>>, outcome: OutcomeView<E>)
    ensures
        match executed(args, outcome) {
            Ok(output) => outcome == OutcomeView::<E>::Finished(output) && output.success,
            Err(NftErrorView::NotFound(message)) => {
                &&& outcome is Failed && outcome->not_found
                &&& message
                    == "nft command not found. Please install nftables or pass --no-nftables to disable automatic rule management."@
            },
            Err(NftErrorView::Io(error)) => outcome == (OutcomeView::Failed {
                not_found: false,
                error,
            }),
            Err(NftErrorView::Failed(message)) => outcome is Finished
                && !outcome->Finished_0.success,
        },
{
}

/// The report of a failure begins with the status, shows the command, and ends with what `nft`
/// wrote, without white space around it.
pub proof fn failures_are_reported<E>(args: Seq<Seq<char>>, output: OutputView)
    requires
        !output.success,
    ensures
        match executed(args, OutcomeView::<E>::Finished(output)) {
            Err(NftErrorView::Failed(message)) => {
                let head = "nft command failed with status "@ + output.status + ": nft "@;
                let tail = "\nStderr: "@ + trimmed(utf8_lossy_text(output.stderr));
                &&& head.is_prefix_of(message)
                &&& tail.is_suffix_of(message)
                &&& message.subrange(head.len() as int, message.len() - tail.len()) == joined(
                    args,
                    " "@,
                )
            },
            _ => false,
        },
{
    let stderr = utf8_lossy_text(output.stderr);
    let message = nft_failed_message(args, output.status, stderr);
    let head = "nft command failed with status "@ + output.status + ": nft "@;
    let tail = "\nStderr: "@ + trimmed(stderr);
    let command = joined(args, " "@);
    assert(message =~= head + command + tail);
    assert(message.subrange(0, head.len() as int) =~= head);
    assert(message.subrange(message.len() - tail.len(), message.len() as int) =~= tail);
    assert(message.subrange(head.len() as int, message.len() - tail.len()) =~= command);
}

/// Joining keeps every part, in order: the parts of the front are joined, then the separator and
/// the last part follow.
pub proof fn joined_parts_follow_each_other(
    front: Seq<Seq<char>>,
    last: Seq<char>,
    separator: Seq<char>,
)
    ensures
        joined(seq![last], separator) == last,
        front.len() > 0 ==> joined(front.push(last), separator) == joined(front, separator)
            + separator + last,
        joined(Seq::<Seq<char>>::empty(), separator).len() == 0,
{
    if front.len() > 0 {
        assert(front.push(last).drop_last() =~= front);
    }
}

/// A chain is taken as it is listed. Where `nft` is missing or reports a failure, no rule is taken
/// to stand; only where it cannot be run for another reason, that is an error.
pub proof fn listings_are_told_apart<E>(outcome: OutcomeView<E>)
    ensures
        match outcome {
            OutcomeView::Failed { not_found, error } => if not_found {
                shown_rules(outcome) is Ok && shown_rules(outcome)->Ok_0.len() == 0
            } else {
                shown_rules(outcome) == Err::<Seq<ListedRule>, E>(error)
            },
            OutcomeView::Finished(output) => shown_rules(outcome) is Ok && shown_rules(
                outcome,
            )->Ok_0 == (if output.success {
                listed_rules(lines_of(utf8_lossy_text(output.stdout)))
            } else {
                seq![]
            }),
        },
{
}

// ---- what an outcome does to a setup ----

/// The setup goes on with the rest, or is done if there is none.
pub open spec fn goes_on<E>(
    progress: ProgressView<E>,
    guard: NftRuleGuardView,
    undoes: bool,
    made: Seq<Seq<char>>,
    rest: Seq<StepView>,
) -> bool {
    match progress {
        ProgressView::Continue(next) => {
            &&& rest.len() > 0
            &&& next.guard == guard
            &&& next.undoes == undoes
            &&& next.made == made
            &&& begins(next)
            &&& steps_left(next.stage) == rest
        },
        ProgressView::Done(kept) => rest.len() == 0 && kept == guard,
        ProgressView::Failed { .. } => false,
    }
}

/// The setup fails with the error. If it undoes what it has set up and a chain was made, the guard
/// is marked as removed, and the removal deletes its rules, or looks at the chains that were made
/// if there are none. Else the guard is as it was, and the removal asks for nothing.
pub open spec fn fails_with<E>(
    progress: ProgressView<E>,
    setup: SetupView,
    error: NftErrorView<E>,
) -> bool {
    match progress {
        ProgressView::Failed { error: reported, guard, removal } => {
            &&& reported == error
            &&& guard.rules == setup.guard.rules
            &&& if setup.undoes && setup.made.len() > 0 {
                &&& guard.removed
                &&& match removal {
                    RemovalView::DeletingRule { rule, more, chains } => {
                        &&& !setup.guard.removed
                        &&& seq![rule] + more == setup.guard.rules
                        &&& chains == setup.made
                    },
                    RemovalView::ListingChain { chain, rest } => {
                        &&& !setup.guard.removed
                        &&& setup.guard.rules.len() == 0
                        &&& seq![chain] + rest == setup.made
                    },
                    RemovalView::Finished => setup.guard.removed,
                    _ => false,
                }
            } else {
                &&& guard.removed == setup.guard.removed
                &&& removal is Finished
            }
        },
        _ => false,
    }
}

/// How a setup that has failed ends.
proof fn lemma_fails_with<E>(setup: SetupView, error: NftErrorView<E>)
    ensures
        fails_with(
            failed(setup.guard, setup.undoes, setup.made, error),
            setup,
            error,
        ),
{
    let rules = setup.guard.rules;
    if rules.len() > 0 {
        assert(seq![rules[0]] + rules.drop_first() =~= rules);
    }
    if setup.made.len() > 0 {
        assert(seq![setup.made[0]] + setup.made.drop_first() =~= setup.made);
    }
}

/// How a setup goes on.
proof fn lemma_goes_on<E>(
    guard: NftRuleGuardView,
    undoes: bool,
    made: Seq<Seq<char>>,
    rest: Seq<StepView>,
)
    ensures
        goes_on::<E>(advanced(guard, undoes, made, rest), guard, undoes, made, rest),
{
    if rest.len() > 0 {
        assert(seq![rest[0]] + rest.drop_first() =~= rest);
    }
}

/// A step that adds something is taken exactly if `nft` succeeds: the table and a chain are then
/// done, and the chain is remembered; behind a rule that was added, its chain is listed again.
/// Otherwise the setup fails, with what is wrong with `nft`.
pub proof fn adding_is_judged<E>(setup: SetupView, outcome: OutcomeView<E>)
    requires
        setup.stage is Installing,
        setup.stage->step is Rule ==> setup.stage->lookup == Lookup::Adding,
    ensures
        match outcome {
            OutcomeView::Finished(output) => if output.success {
                match setup.stage->step {
                    StepView::Table => goes_on(
                        setup.resumed(outcome),
                        setup.guard,
                        setup.undoes,
                        setup.made,
                        setup.stage->rest,
                    ),
                    StepView::Chain { name, .. } => goes_on(
                        setup.resumed(outcome),
                        setup.guard,
                        setup.undoes,
                        setup.made.push(name),
                        setup.stage->rest,
                    ),
                    StepView::Rule(_) => setup.resumed(outcome) == ProgressView::<E>::Continue(
                        SetupView {
                            stage: StageView::Installing {
                                step: setup.stage->step,
                                rest: setup.stage->rest,
                                lookup: Lookup::After,
                            },
                            ..setup
                        },
                    ),
                }
            } else {
                setup.resumed(outcome) is Failed && setup.resumed(outcome)->error is Failed
                    && fails_with(setup.resumed(outcome), setup, setup.resumed(outcome)->error)
            },
            OutcomeView::Failed { not_found, error } => if not_found {
                setup.resumed(outcome) is Failed && setup.resumed(outcome)->error is NotFound
                    && fails_with(setup.resumed(outcome), setup, setup.resumed(outcome)->error)
            } else {
                fails_with(setup.resumed(outcome), setup, NftErrorView::Io(error))
            },
        },
{
    let args = step_args(setup.stage->step, setup.stage->lookup);
    match executed(args, outcome) {
        Err(error) => {
            lemma_fails_with(setup, error);
        },
        Ok(_) => {
            let made = match setup.stage->step {
                StepView::Chain { name, .. } => setup.made.push(name),
                _ => setup.made,
            };
            lemma_goes_on::<E>(setup.guard, setup.undoes, made, setup.stage->rest);
        },
    }
}

/// A rule that is looked for is added if the listing shows none that is taken for it. Else, and
/// after it was added, the guard keeps it behind the others, once for each handle that the listing
/// shows for it, and the setup goes on. Only where `nft` could not be run the setup fails.
pub proof fn looking_is_judged<E>(setup: SetupView, rule: TunnelRuleView, outcome: OutcomeView<E>)
    requires
        setup.stage is Installing,
        setup.stage->step == StepView::Rule(rule),
        setup.stage->lookup != Lookup::Adding,
    ensures
        match shown_rules(outcome) {
            Err(error) => fails_with(setup.resumed(outcome), setup, NftErrorView::Io(error)),
            Ok(listed) => {
                let handles = matching_handles(rule, listed);
                if setup.stage->lookup == Lookup::Before && handles.len() == 0 {
                    setup.resumed(outcome) == ProgressView::<E>::Continue(
                        SetupView {
                            stage: StageView::Installing {
                                step: setup.stage->step,
                                rest: setup.stage->rest,
                                lookup: Lookup::Adding,
                            },
                            ..setup
                        },
                    )
                } else {
                    exists|guard: NftRuleGuardView|
                        #[trigger] keeps_behind(guard, setup.guard, rule, handles) && goes_on(
                            setup.resumed(outcome),
                            guard,
                            setup.undoes,
                            setup.made,
                            setup.stage->rest,
                        )
                }
            },
        },
{
    match shown_rules(outcome) {
        Err(error) => {
            lemma_fails_with::<E>(setup, NftErrorView::Io(error));
        },
        Ok(listed) => {
            let handles = matching_handles(rule, listed);
            let guard = setup.guard.with(registered(rule, handles));
            assert(keeps_behind(guard, setup.guard, rule, handles)) by {
                assert(setup.guard.rules.is_prefix_of(guard.rules)) by {
                    assert(guard.rules.subrange(0, setup.guard.rules.len() as int)
                        =~= setup.guard.rules);
                }
            }
            lemma_goes_on::<E>(guard, setup.undoes, setup.made, setup.stage->rest);
        },
    }
}

/// The guard keeps what it kept before and, behind it, the rule under each of the handles.
pub open spec fn keeps_behind(
    guard: NftRuleGuardView,
    before: NftRuleGuardView,
    rule: TunnelRuleView,
    handles: Seq<u64>,
) -> bool {
    &&& guard.removed == before.removed
    &&& guard.rules.len() == before.rules.len() + handles.len()
    &&& before.rules.is_prefix_of(guard.rules)
    &&& forall|i: int|
        #![trigger handles[i]]
        0 <= i < handles.len() ==> {
            let kept = guard.rules[before.rules.len() + i];
            &&& kept.handle == handles[i]
            &&& kept.chain == rule.chain()
            &&& kept.description == rule.text()
        }
}

// ---- what an outcome does to a removal ----

/// The chains that a removal has still to look at.
pub open spec fn chains_ahead(removal: RemovalView) -> Seq<Seq<char>> {
    match removal {
        RemovalView::DeletingRule { chains, .. } => chains,
        RemovalView::ListingChain { chain, rest } => seq![chain] + rest,
        RemovalView::DeletingChain { rest, .. } => rest,
        _ => seq![],
    }
}

/// A removal starts with all rules that the guard keeps and, behind them, with all chains; a guard
/// whose rules were removed before has nothing to remove.
pub proof fn removal_starts_with_everything(guard: NftRuleGuardView)
    ensures
        guard.removed ==> removal_of(guard) is Finished,
        !guard.removed && guard.rules.len() > 0 ==> match removal_of(guard) {
            RemovalView::DeletingRule { rule, more, chains } => {
                &&& seq![rule] + more == guard.rules
                &&& chains == visited_chains(guard.rules)
            },
            _ => false,
        },
        !guard.removed && guard.rules.len() == 0 ==> removal_of(guard) is ListingChain
            && chains_ahead(removal_of(guard)) == visited_chains(guard.rules),
{
    let rules = guard.rules;
    let chains = visited_chains(rules);
    every_chain_is_looked_at(rules, "postrouting"@);
    assert(chains.len() > 0);
    assert(seq![chains[0]] + chains.drop_first() =~= chains);
    if rules.len() > 0 {
        assert(seq![rules[0]] + rules.drop_first() =~= rules);
    }
}

/// The removal looks at the first of the chains next, or at the table if there is none.
pub open spec fn looks_next(removal: RemovalView, chains: Seq<Seq<char>>) -> bool {
    match removal {
        RemovalView::ListingChain { chain, rest } => seq![chain] + rest == chains,
        RemovalView::ListingTable => chains.len() == 0,
        _ => false,
    }
}

/// What each outcome does to a removal. Rules are deleted one after the other, whether that
/// succeeds or not; then the chains are looked at one after the other. A chain that a successful
/// listing shows to be empty is deleted before the next is looked at, and any other is left. The
/// table is looked at last, and deleted if a successful listing shows that it is empty.
pub proof fn removal_takes_its_steps<E>(removal: RemovalView, outcome: OutcomeView<E>)
    ensures
        match removal {
            RemovalView::DeletingRule { more, chains, .. } => if more.len() > 0 {
                match removal.resumed(outcome) {
                    RemovalView::DeletingRule { rule, more: left, chains: same } => {
                        &&& seq![rule] + left == more
                        &&& same == chains
                    },
                    _ => false,
                }
            } else {
                looks_next(removal.resumed(outcome), chains)
            },
            RemovalView::ListingChain { chain, rest } => if outcome is Finished
                && outcome->Finished_0.success && chain_is_bare(
                utf8_lossy_text(outcome->Finished_0.stdout),
            ) {
                removal.resumed(outcome) == (RemovalView::DeletingChain { chain, rest })
            } else {
                looks_next(removal.resumed(outcome), rest)
            },
            RemovalView::DeletingChain { rest, .. } => looks_next(removal.resumed(outcome), rest),
            RemovalView::ListingTable => if outcome is Finished && outcome->Finished_0.success
                && table_is_bare(utf8_lossy_text(outcome->Finished_0.stdout)) {
                removal.resumed(outcome) is DeletingTable
            } else {
                removal.resumed(outcome) is Finished
            },
            _ => removal.resumed(outcome) is Finished,
        },
{
    match removal {
        RemovalView::DeletingRule { more, chains, .. } => {
            if more.len() > 0 {
                assert(seq![more[0]] + more.drop_first() =~= more);
            } else if chains.len() > 0 {
                assert(seq![chains[0]] + chains.drop_first() =~= chains);
            }
        },
        RemovalView::ListingChain { rest, .. } => {
            if rest.len() > 0 {
                assert(seq![rest[0]] + rest.drop_first() =~= rest);
            }
        },
        RemovalView::DeletingChain { rest, .. } => {
            if rest.len() > 0 {
                assert(seq![rest[0]] + rest.drop_first() =~= rest);
            }
        },
        _ => {},
    }
}

/// The removal lists the chain at that point of the run.
pub open spec fn lists_at<E>(
    removal: RemovalView,
    outcomes: Seq<OutcomeView<E>>,
    chain: Seq<char>,
    n: int,
) -> bool {
    &&& 0 <= n < outcomes.len()
    &&& removal_after(removal, outcomes.take(n)) is ListingChain
    &&& removal_after(removal, outcomes.take(n))->ListingChain_chain == chain
}

/// A chain that a removal has to look at is still ahead, or was listed, or is about to be.
proof fn lemma_chain_is_listed<E>(
    removal: RemovalView,
    outcomes: Seq<OutcomeView<E>>,
    chain: Seq<char>,
)
    requires
        chains_ahead(removal).contains(chain),
    ensures
        chains_ahead(removal_after(removal, outcomes)).contains(chain) || exists|n: int|
            lists_at(removal, outcomes, chain, n),
    decreases outcomes.len(),
{
    if outcomes.len() > 0 {
        let fewer = outcomes.drop_last();
        let last = fewer.len() as int;
        lemma_chain_is_listed(removal, fewer, chain);
        assert(outcomes.take(last) =~= fewer);
        if exists|n: int| lists_at(removal, fewer, chain, n) {
            let n = choose|n: int| lists_at(removal, fewer, chain, n);
            assert(fewer.take(n) =~= outcomes.take(n));
            assert(lists_at(removal, outcomes, chain, n));
        } else {
            let before = removal_after(removal, fewer);
            let after = removal_after(removal, outcomes);
            removal_takes_its_steps(before, outcomes.last());
            let ahead = chains_ahead(before);
            let i = choose|i: int| 0 <= i < ahead.len() && ahead[i] == chain;
            match before {
                RemovalView::DeletingRule { .. } => {
                    assert(chains_ahead(after) == ahead);
                },
                RemovalView::ListingChain { chain: now, rest } => {
                    if i == 0 {
                        assert(now == chain);
                        assert(lists_at(removal, outcomes, chain, last));
                    } else {
                        assert(rest[i - 1] == chain);
                        assert(chains_ahead(after) == rest);
                    }
                },
                RemovalView::DeletingChain { rest, .. } => {
                    assert(chains_ahead(after) == rest);
                },
                _ => {},
            }
        }
    }
}

/// A removal that runs to its end has looked at every chain that it had to look at, and has asked
/// to delete each of them that a successful listing showed to be empty, right behind that listing.
pub proof fn finished_removal_has_looked_everywhere<E>(
    guard: NftRuleGuardView,
    chains: Seq<Seq<char>>,
    outcomes: Seq<OutcomeView<E>>,
    chain: Seq<char>,
) -> (n: int)
    requires
        !guard.removed,
        chains.contains(chain),
        removal_after(removal_over(guard, chains), outcomes) is Finished,
    ensures
        lists_at(removal_over(guard, chains), outcomes, chain, n),
        outcomes[n] is Finished && outcomes[n]->Finished_0.success && chain_is_bare(
            utf8_lossy_text(outcomes[n]->Finished_0.stdout),
        ) ==> removal_after(removal_over(guard, chains), outcomes.take(n + 1)) is DeletingChain
            && removal_after(
            removal_over(guard, chains),
            outcomes.take(n + 1),
        )->DeletingChain_chain == chain,
{
    let removal = removal_over(guard, chains);
    assert(seq![chains[0]] + chains.drop_first() =~= chains);
    assert(chains_ahead(removal) == chains);
    lemma_chain_is_listed(removal, outcomes, chain);
    let n = choose|n: int| lists_at(removal, outcomes, chain, n);
    assert(outcomes.take(n + 1).drop_last() =~= outcomes.take(n));
    assert(outcomes.take(n + 1).last() == outcomes[n]);
    removal_takes_its_steps(removal_after(removal, outcomes.take(n)), outcomes[n]);
    n
}

} // verus!
