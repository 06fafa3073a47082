//! What holds of every setup and of every removal, whatever the system answers.

use vstd::prelude::*;
use crate::command::{
    delete_chain_args, delete_rule_args, delete_table_args, list_chain_args, list_table_args,
    nft_run, OutcomeView,
};
use crate::guard::{NftRuleGuardView, NftRuleView};
use crate::interface::{detected, DetectionView, Probe};
use crate::listing::shown_rules;
use crate::number::{decimal, lemma_decimal_injective};
use crate::removal::{
    chains_of, deleting, joined_by, looking_at, removal_of, removal_over, shows_bare_chain,
    shows_bare_table, visited_chains, RemovalView,
};
use crate::rule::TunnelRuleView;
use crate::setup::{
    advanced, beginning, first_stage, matching_handles, plan, registered, step_args, Lookup,
    ProgressView, SetupView, StageView, StepView, TargetView,
};

verus! {

/// Where a setup stands after the outcomes; those behind its end do not count.
pub open spec fn setup_after<E>(setup: SetupView, outcomes: Seq<OutcomeView<E>>) -> ProgressView<E>
    decreases outcomes.len(),
{
    if outcomes.len() == 0 {
        ProgressView::Continue(setup)
    } else {
        match setup_after(setup, outcomes.drop_last()) {
            ProgressView::Continue(now) => now.resumed(outcomes.last()),
            end => end,
        }
    }
}

/// The guard of a setup, or of what became of it.
pub open spec fn guard_of<E>(progress: ProgressView<E>) -> NftRuleGuardView {
    match progress {
        ProgressView::Continue(setup) => setup.guard,
        ProgressView::Done(guard) => guard,
        ProgressView::Failed { guard, .. } => guard,
    }
}

/// The setup looks whether the rule stands in its chain.
pub open spec fn searches_for(setup: SetupView, rule: TunnelRuleView) -> bool {
    setup.stage matches StageView::Installing { step, lookup, .. } && step == StepView::Rule(rule)
        && lookup == Lookup::Before
}

/// The setup adds the rule to its chain.
pub open spec fn adds(setup: SetupView, rule: TunnelRuleView) -> bool {
    setup.stage matches StageView::Installing { step, lookup, .. } && step == StepView::Rule(rule)
        && lookup == Lookup::Adding
}

/// The outcome of listing a chain shows a rule that is taken for the rule.
pub open spec fn shows_rule<E>(outcome: OutcomeView<E>, rule: TunnelRuleView) -> bool {
    shown_rules(outcome) is Ok && matching_handles(rule, shown_rules(outcome)->Ok_0).len() > 0
}

/// A rule is added only after its chain was listed and no rule in it was taken for the rule.
pub proof fn rule_is_added_only_if_absent<E>(
    setup: SetupView,
    outcome: OutcomeView<E>,
    next: SetupView,
    rule: TunnelRuleView,
)
    requires
        setup.resumed(outcome) == ProgressView::<E>::Continue(next),
        adds(next, rule),
    ensures
        searches_for(setup, rule),
        shown_rules(outcome) is Ok,
        !shows_rule(outcome, rule),
{
    lemma_plan_begins_with_table(setup);
}

/// A setup that leaves the search for the interface goes on with the table.
proof fn lemma_plan_begins_with_table(setup: SetupView)
    ensures
        match setup.stage {
            StageView::Detecting { target, .. } => forall|iface: Option<Seq<char>>|
                (#[trigger] plan(target, iface)).len() > 0 && plan(target, iface)[0] == StepView::Table,
            _ => true,
        },
{
}

/// A rule that stands in its chain is kept under the handles that the listing shows, and the
/// setup goes on with the next step.
pub proof fn present_rule_is_reused<E>(
    setup: SetupView,
    rule: TunnelRuleView,
    rest: Seq<StepView>,
    outcome: OutcomeView<E>,
)
    requires
        setup.stage == (StageView::Installing {
            step: StepView::Rule(rule),
            rest,
            lookup: Lookup::Before,
        }),
        shows_rule(outcome, rule),
    ensures
        setup.resumed(outcome) == advanced::<E>(
            setup.guard.with(
                registered(rule, matching_handles(rule, shown_rules(outcome)->Ok_0)),
            ),
            setup.undoes,
            setup.made,
            rest,
        ),
{
}

/// Setting up again is idempotent: where every search finds its rule, no rule is added.
pub proof fn second_setup_adds_nothing<E>(
    setup: SetupView,
    outcomes: Seq<OutcomeView<E>>,
    now: SetupView,
    rule: TunnelRuleView,
)
    requires
        forall|other: TunnelRuleView| !adds(setup, other),
        forall|n: int, other: TunnelRuleView|
            #![trigger outcomes[n], searches_for(setup_after(setup, outcomes.take(n))->Continue_0, other)]
            0 <= n < outcomes.len() && setup_after(setup, outcomes.take(n)) is Continue && searches_for(
                setup_after(setup, outcomes.take(n))->Continue_0,
                other,
            ) ==> shows_rule(outcomes[n], other),
        setup_after(setup, outcomes) == ProgressView::<E>::Continue(now),
    ensures
        !adds(now, rule),
{
    if outcomes.len() > 0 && adds(now, rule) {
        let n = outcomes.len() - 1;
        assert(outcomes.take(n) == outcomes.drop_last());
        let before = setup_after(setup, outcomes.take(n))->Continue_0;
        rule_is_added_only_if_absent(before, outcomes.last(), now, rule);
        assert(shows_rule(outcomes[n], rule));
    }
}

/// A setup keeps what its guard kept before, in front, and marks it as removed only where it
/// fails and undoes what it has set up.
pub proof fn setup_keeps_earlier_rules<E>(setup: SetupView, outcomes: Seq<OutcomeView<E>>)
    ensures
        setup.guard.rules.is_prefix_of(guard_of(setup_after(setup, outcomes)).rules),
        !(setup_after(setup, outcomes) is Failed && setup.undoes) ==> guard_of(
            setup_after(setup, outcomes),
        ).removed == setup.guard.removed,
        setup_after(setup, outcomes) is Continue ==> setup_after(
            setup,
            outcomes,
        )->Continue_0.undoes == setup.undoes,
    decreases outcomes.len(),
{
    if outcomes.len() > 0 {
        setup_keeps_earlier_rules(setup, outcomes.drop_last());
    }
}

/// A setup of a tunnel that fails once its first chain is made is undone: the removal that it
/// hands back deletes the rules that it has set up so far one by one, in order, and then looks at
/// the chains that it has made and at no other.
pub proof fn failed_setup_is_undone<E>(
    setup: SetupView,
    outcome: OutcomeView<E>,
    outcomes: Seq<OutcomeView<E>>,
)
    requires
        setup.undoes,
        setup.made.len() > 0,
        !setup.guard.removed,
        setup.resumed(outcome) is Failed,
    ensures
        setup.resumed(outcome)->Failed_removal == removal_over(setup.guard, setup.made),
        setup.resumed(outcome)->Failed_guard == setup.guard.spent(),
        outcomes.len() < setup.guard.rules.len() ==> removal_after(
            setup.resumed(outcome)->Failed_removal,
            outcomes,
        ).request() == Some(
            nft_run(
                delete_rule_args(
                    setup.guard.rules[outcomes.len() as int].chain,
                    decimal(setup.guard.rules[outcomes.len() as int].handle as nat),
                ),
            ),
        ),
        stays_within(
            removal_after(setup.resumed(outcome)->Failed_removal, outcomes),
            setup.guard,
            setup.made,
        ),
{
    if outcomes.len() < setup.guard.rules.len() {
        removal_deletes_every_kept_rule(setup.guard, setup.made, outcomes);
    }
    removal_stays_within_guard(setup.guard, setup.made, outcomes);
}

/// A setup that fails before its first chain is made asks for nothing more.
pub proof fn early_failure_asks_for_nothing<E>(setup: SetupView, outcome: OutcomeView<E>)
    requires
        setup.made.len() == 0,
        setup.resumed(outcome) is Failed,
    ensures
        setup.resumed(outcome)->Failed_removal.request() is None,
        setup.resumed(outcome)->Failed_guard == setup.guard,
{
}

/// A mark that cannot be added leaves its guard as it was, and nothing is removed.
pub proof fn failed_mark_leaves_the_guard<E>(setup: SetupView, outcome: OutcomeView<E>)
    requires
        !setup.undoes,
        setup.resumed(outcome) is Failed,
    ensures
        setup.resumed(outcome)->Failed_guard == setup.guard,
        setup.resumed(outcome)->Failed_removal == RemovalView::Finished,
{
}

/// The step is still to be taken, or may be once the interface is known.
pub open spec fn is_planned(stage: StageView, planned: StepView) -> bool {
    match stage {
        StageView::Detecting { target, .. } => exists|iface: Option<Seq<char>>|
            (#[trigger] plan(target, iface)).contains(planned),
        StageView::Installing { step, rest, .. } => step == planned || rest.contains(planned),
    }
}

/// The rule is one that a planned step lets the guard keep.
pub open spec fn comes_from_plan(stage: StageView, kept: NftRuleView) -> bool {
    exists|rule: TunnelRuleView|
        #[trigger] is_planned(stage, StepView::Rule(rule)) && kept.chain == rule.chain()
            && kept.description == rule.text()
}

/// What is planned after an outcome was planned before it.
proof fn lemma_plan_shrinks<E>(setup: SetupView, outcome: OutcomeView<E>, planned: StepView)
    requires
        setup.resumed(outcome) is Continue,
        is_planned(setup.resumed(outcome)->Continue_0.stage, planned),
    ensures
        is_planned(setup.stage, planned),
{
    let next = setup.resumed(outcome)->Continue_0;
    match setup.stage {
        StageView::Detecting { target, .. } => {
            match next.stage {
                StageView::Detecting { .. } => {},
                StageView::Installing { step, rest, .. } => {
                    let iface = match detected(setup.stage->probe, outcome) {
                        DetectionView::Found(name) => Some(name),
                        _ => None,
                    };
                    let steps = plan(target, iface);
                    assert(next.stage == beginning(steps));
                    lemma_plan_begins_with_table(setup);
                    lemma_first_or_rest(steps, planned);
                },
            }
        },
        StageView::Installing { step, rest, .. } => {
            match next.stage {
                StageView::Detecting { .. } => {},
                StageView::Installing { step: next_step, rest: next_rest, .. } => {
                    if next_rest != rest {
                        lemma_first_or_rest(rest, planned);
                    } else if next_step != step {
                        lemma_first_or_rest(rest, planned);
                    }
                },
            }
        },
    }
}

/// What is the first of a sequence or behind it is in the sequence.
proof fn lemma_first_or_rest(steps: Seq<StepView>, planned: StepView)
    requires
        steps.len() > 0,
        planned == steps[0] || steps.drop_first().contains(planned),
    ensures
        steps.contains(planned),
{
    if planned == steps[0] {
        assert(steps[0] == planned);
    } else {
        let i = choose|i: int| 0 <= i < steps.drop_first().len() && steps.drop_first()[i] == planned;
        assert(steps[i + 1] == planned);
    }
}

/// Whatever the system answers, the rules that a setup adds to its guard stand in the chain and
/// have the text of a rule that was planned.
pub proof fn kept_rules_come_from_plan<E>(setup: SetupView, outcomes: Seq<OutcomeView<E>>, i: int)
    requires
        setup.guard.rules.len() <= i < guard_of(setup_after(setup, outcomes)).rules.len(),
    ensures
        comes_from_plan(setup.stage, guard_of(setup_after(setup, outcomes)).rules[i]),
{
    lemma_kept_and_planned(setup, outcomes);
}

/// The rules that a setup has added, and the steps that it has left, come from its plan.
proof fn lemma_kept_and_planned<E>(setup: SetupView, outcomes: Seq<OutcomeView<E>>)
    ensures
        forall|i: int|
            setup.guard.rules.len() <= i < guard_of(setup_after(setup, outcomes)).rules.len()
                ==> comes_from_plan(
                setup.stage,
                #[trigger] guard_of(setup_after(setup, outcomes)).rules[i],
            ),
        setup_after(setup, outcomes) is Continue ==> forall|planned: StepView|
            #[trigger]
            is_planned(setup_after(setup, outcomes)->Continue_0.stage, planned) ==> is_planned(
                setup.stage,
                planned,
            ),
    decreases outcomes.len(),
{
    if outcomes.len() > 0 {
        let before = setup_after(setup, outcomes.drop_last());
        let after = setup_after(setup, outcomes);
        lemma_kept_and_planned(setup, outcomes.drop_last());
        setup_keeps_earlier_rules(setup, outcomes.drop_last());
        if before is Continue {
            let now = before->Continue_0;
            let outcome = outcomes.last();
            assert forall|i: int|
                setup.guard.rules.len() <= i < guard_of(after).rules.len() implies comes_from_plan(
                setup.stage,
                #[trigger] guard_of(after).rules[i],
            ) by {
                if i < now.guard.rules.len() {
                    assert(guard_of(after).rules[i] == guard_of(before).rules[i]);
                } else {
                    let step = now.stage->step;
                    assert(is_planned(now.stage, step));
                    assert(is_planned(setup.stage, step));
                }
            }
            if after is Continue {
                assert forall|planned: StepView|
                    #[trigger]
                    is_planned(after->Continue_0.stage, planned) implies is_planned(
                    setup.stage,
                    planned,
                ) by {
                    lemma_plan_shrinks(now, outcome, planned);
                }
            }
        }
    }
}

/// The chains that a setup has made sure of come from its plan.
proof fn lemma_made_and_planned<E>(setup: SetupView, outcomes: Seq<OutcomeView<E>>, chain: Seq<char>)
    requires
        setup_after(setup, outcomes) is Continue,
        setup_after(setup, outcomes)->Continue_0.made.contains(chain),
    ensures
        setup.made.contains(chain) || makes_chain(setup.stage, chain),
    decreases outcomes.len(),
{
    if outcomes.len() > 0 {
        let now = setup_after(setup, outcomes.drop_last())->Continue_0;
        let next = setup_after(setup, outcomes)->Continue_0;
        if now.made.contains(chain) {
            lemma_made_and_planned(setup, outcomes.drop_last(), chain);
        } else {
            let step = now.stage->step;
            let i = choose|i: int| 0 <= i < next.made.len() && next.made[i] == chain;
            assert(step is Chain && next.made == now.made.push(step->name));
            assert(i == now.made.len());
            lemma_kept_and_planned(setup, outcomes.drop_last());
            assert(is_planned(now.stage, step));
            assert(is_planned(setup.stage, step));
        }
    }
}

/// A planned step makes sure of the chain.
pub open spec fn makes_chain(stage: StageView, chain: Seq<char>) -> bool {
    exists|step: StepView|
        #[trigger] is_planned(stage, step) && step is Chain && step->name == chain
}

/// Without a mark, a setup of a tunnel neither makes the chain for marks nor looks for a rule that
/// sets one, nor has that chain to undo.
pub proof fn without_mark_no_marking<E>(
    target: TargetView,
    iface: Option<Seq<char>>,
    setup: SetupView,
    outcomes: Seq<OutcomeView<E>>,
    now: SetupView,
)
    requires
        match target {
            TargetView::Client { mark, .. } => mark is None,
            TargetView::Server { mark, .. } => mark is None,
        },
        setup.stage == first_stage(target, iface),
        setup.made.len() == 0,
        setup_after(setup, outcomes) == ProgressView::<E>::Continue(now),
    ensures
        !now.made.contains("prerouting_mangle"@),
        now.stage is Installing ==> match now.stage->step {
            StepView::Table => true,
            StepView::Chain { name, .. } => name != "prerouting_mangle"@,
            StepView::Rule(rule) => !(rule is Mark),
        },
{
    lemma_kept_and_planned(setup, outcomes);
    assert forall|step: StepView| #[trigger] is_planned(setup.stage, step) implies match step {
        StepView::Table => true,
        StepView::Chain { name, .. } => name != "prerouting_mangle"@,
        StepView::Rule(rule) => !(rule is Mark),
    } by {
        lemma_unmarked_plan(target, iface, step);
    }
    if now.stage is Installing {
        assert(is_planned(now.stage, now.stage->step));
    }
    if now.made.contains("prerouting_mangle"@) {
        lemma_made_and_planned(setup, outcomes, "prerouting_mangle"@);
    }
}

/// What is planned without a mark has nothing to do with marks.
proof fn lemma_unmarked_plan(target: TargetView, iface: Option<Seq<char>>, step: StepView)
    requires
        match target {
            TargetView::Client { mark, .. } => mark is None,
            TargetView::Server { mark, .. } => mark is None,
        },
        is_planned(first_stage(target, iface), step),
    ensures
        match step {
            StepView::Table => true,
            StepView::Chain { name, .. } => name != "prerouting_mangle"@,
            StepView::Rule(rule) => !(rule is Mark),
        },
{
    reveal_strlit("postrouting");
    reveal_strlit("prerouting");
    reveal_strlit("prerouting_mangle");
    assert("postrouting"@.len() == 11 && "prerouting"@.len() == 10 && "prerouting_mangle"@.len()
        == 17);
    match first_stage(target, iface) {
        StageView::Detecting { .. } => {
            let found = choose|found: Option<Seq<char>>| (#[trigger] plan(target, found)).contains(step);
            let i = choose|i: int| 0 <= i < plan(target, found).len() && plan(target, found)[i] == step;
            assert(plan(target, found)[i] == step);
        },
        StageView::Installing { step: first, rest, .. } => {
            if first != step {
                let i = choose|i: int| 0 <= i < rest.len() && rest[i] == step;
                let name = iface->0;
                let found = if name == "-"@ || name.len() == 0 {
                    None
                } else {
                    Some(name)
                };
                assert(rest == plan(target, found).drop_first());
                assert(plan(target, found)[i + 1] == step);
            }
        },
    }
}

/// Without a mark, the name of the tunnel has no influence on the setup of a server.
pub proof fn unmarked_server_ignores_the_tunnel(
    port: u16,
    tun: Seq<char>,
    other: Seq<char>,
    peer: Seq<char>,
    peer6: Option<Seq<char>>,
    iface: Option<Seq<char>>,
)
    ensures
        plan((TargetView::Server { port, tun, peer, peer6, mark: None }), iface) == plan(
            (TargetView::Server { port, tun: other, peer, peer6, mark: None }),
            iface,
        ),
{
}

/// The steps that a setup has left once the interface is known, the current one first.
pub open spec fn steps_left(stage: StageView) -> Seq<StepView>
    recommends
        stage is Installing,
{
    seq![stage->step] + stage->rest
}

/// A setup takes its steps in order and leaves none out: after an outcome it is still at the
/// same step, or at the next, or done because there was no other.
pub proof fn steps_are_taken_in_order<E>(setup: SetupView, outcome: OutcomeView<E>)
    requires
        setup.stage is Installing,
    ensures
        match setup.resumed(outcome) {
            ProgressView::Continue(next) => next.stage is Installing && (steps_left(next.stage)
                == steps_left(setup.stage) || steps_left(next.stage) == steps_left(
                setup.stage,
            ).drop_first()),
            ProgressView::Done(_) => steps_left(setup.stage).len() == 1,
            ProgressView::Failed { .. } => true,
        },
{
    let rest = setup.stage->rest;
    assert(steps_left(setup.stage).drop_first() =~= rest);
    if rest.len() > 0 {
        assert(seq![rest[0]] + rest.drop_first() =~= rest);
    }
}

/// The most requests that a step needs.
pub open spec fn step_cost(step: StepView) -> nat {
    if step is Rule {
        3
    } else {
        1
    }
}

/// The most requests that the steps need.
pub open spec fn steps_cost(steps: Seq<StepView>) -> nat
    decreases steps.len(),
{
    if steps.len() == 0 {
        0
    } else {
        step_cost(steps[0]) + steps_cost(steps.drop_first())
    }
}

/// The most requests that a setup still needs.
pub open spec fn setup_cost(stage: StageView) -> nat {
    match stage {
        StageView::Detecting { probe, target } => (match probe {
            Probe::RouteTable => 3nat,
            Probe::DefaultRoute => 2nat,
            Probe::DeviceTable => 1nat,
        }) + steps_cost(plan(target, None)),
        StageView::Installing { step, rest, lookup } => {
            (if step is Rule {
                match lookup {
                    Lookup::Before => 3nat,
                    Lookup::Adding => 2nat,
                    Lookup::After => 1nat,
                }
            } else {
                1nat
            }) + steps_cost(rest)
        },
    }
}

/// The plan needs as many requests on one interface as on another.
proof fn lemma_plan_cost(target: TargetView, iface: Option<Seq<char>>)
    ensures
        steps_cost(plan(target, iface)) == steps_cost(plan(target, None)),
{
    lemma_same_cost(plan(target, iface), plan(target, None));
}

/// Steps of the same kinds need as many requests.
proof fn lemma_same_cost(a: Seq<StepView>, b: Seq<StepView>)
    requires
        a.len() == b.len(),
        forall|i: int| 0 <= i < a.len() ==> (#[trigger] a[i] is Rule <==> b[i] is Rule),
    ensures
        steps_cost(a) == steps_cost(b),
    decreases a.len(),
{
    if a.len() > 0 {
        assert forall|i: int| 0 <= i < a.drop_first().len() implies (#[trigger] a.drop_first()[i] is Rule
            <==> b.drop_first()[i] is Rule) by {
            assert(a[i + 1] is Rule <==> b[i + 1] is Rule);
        }
        lemma_same_cost(a.drop_first(), b.drop_first());
    }
}

/// Every outcome brings a setup nearer to its end.
pub proof fn setup_makes_progress<E>(setup: SetupView, outcome: OutcomeView<E>)
    ensures
        setup.resumed(outcome) matches ProgressView::Continue(next) ==> setup_cost(next.stage)
            < setup_cost(setup.stage),
{
    match setup.stage {
        StageView::Detecting { probe, target } => {
            if setup.resumed(outcome) is Continue {
                let next = setup.resumed(outcome)->Continue_0;
                match detected(probe, outcome) {
                    DetectionView::Found(name) => {
                        lemma_plan_cost(target, Some(name));
                        lemma_plan_begins_with_table(setup);
                        assert(plan(target, Some(name)).len() > 0);
                    },
                    DetectionView::Next(_) => {},
                    DetectionView::Nothing => {
                        lemma_plan_begins_with_table(setup);
                        assert(plan(target, None).len() > 0);
                    },
                }
            }
        },
        StageView::Installing { .. } => {},
    }
}

/// A setup ends, whatever the system answers.
pub proof fn setup_ends<E>(setup: SetupView, outcomes: Seq<OutcomeView<E>>)
    requires
        outcomes.len() >= setup_cost(setup.stage),
    ensures
        !(setup_after(setup, outcomes) is Continue),
{
    lemma_setup_cost_falls(setup, outcomes);
}

/// A setup that is under way after the outcomes still needs less than before by their number.
proof fn lemma_setup_cost_falls<E>(setup: SetupView, outcomes: Seq<OutcomeView<E>>)
    ensures
        setup_after(setup, outcomes) matches ProgressView::Continue(now) ==> 0 < setup_cost(
            now.stage,
        ) <= setup_cost(setup.stage) - outcomes.len(),
    decreases outcomes.len(),
{
    if outcomes.len() > 0 {
        lemma_setup_cost_falls(setup, outcomes.drop_last());
        if setup_after(setup, outcomes.drop_last()) is Continue {
            let now = setup_after(setup, outcomes.drop_last())->Continue_0;
            setup_makes_progress(now, outcomes.last());
        }
    }
}

/// A setup only reads, lists and adds: it asks a source for the interface, or runs `nft` to add
/// or to list.
pub proof fn setup_deletes_nothing(setup: SetupView)
    ensures
        match setup.stage {
            StageView::Detecting { probe, .. } => setup.request() == probe.asks(),
            StageView::Installing { .. } => exists|args: Seq<Seq<char>>|
                setup.request() == #[trigger] nft_run(args) && args.len() > 0 && (args[0] == "add"@
                    || args[0] == "-a"@),
        },
{
    if setup.stage is Installing {
        let args = step_args(setup.stage->step, setup.stage->lookup);
        assert(setup.request() == nft_run(args));
        assert(args[0] == "add"@ || args[0] == "-a"@);
    }
}

/// Where a removal stands after the outcomes.
pub open spec fn removal_after<E>(removal: RemovalView, outcomes: Seq<OutcomeView<E>>) -> RemovalView
    decreases outcomes.len(),
{
    if outcomes.len() == 0 {
        removal
    } else {
        removal_after(removal, outcomes.drop_last()).resumed(outcomes.last())
    }
}

/// Every one of the chains is among the others.
pub open spec fn all_among(chains: Seq<Seq<char>>, others: Seq<Seq<char>>) -> bool {
    forall|i: int| 0 <= i < chains.len() ==> others.contains(#[trigger] chains[i])
}

/// The removal deals with rules of the guard and with the chains alone.
pub open spec fn stays_within(
    removal: RemovalView,
    guard: NftRuleGuardView,
    chains: Seq<Seq<char>>,
) -> bool {
    match removal {
        RemovalView::DeletingRule { rule, more, chains: left } => {
            &&& guard.rules.contains(rule)
            &&& forall|i: int| 0 <= i < more.len() ==> guard.rules.contains(#[trigger] more[i])
            &&& all_among(left, chains)
        },
        RemovalView::ListingChain { chain, rest } => chains.contains(chain) && all_among(
            rest,
            chains,
        ),
        RemovalView::DeletingChain { chain, rest } => chains.contains(chain) && all_among(
            rest,
            chains,
        ),
        _ => true,
    }
}

/// A removal never deals with a rule that its guard does not keep, nor with a chain other than
/// those that it was to look at, whatever the system answers.
pub proof fn removal_stays_within_guard<E>(
    guard: NftRuleGuardView,
    chains: Seq<Seq<char>>,
    outcomes: Seq<OutcomeView<E>>,
)
    ensures
        stays_within(removal_after(removal_over(guard, chains), outcomes), guard, chains),
    decreases outcomes.len(),
{
    if outcomes.len() == 0 {
        let rules = guard.rules;
        assert(all_among(chains, chains));
        lemma_looking_within(chains, guard, chains);
        if rules.len() > 0 {
            assert(rules.contains(rules[0]));
            assert forall|i: int| 0 <= i < rules.drop_first().len() implies rules.contains(
                #[trigger] rules.drop_first()[i],
            ) by {
                assert(rules.drop_first()[i] == rules[i + 1]);
            }
        }
    } else {
        removal_stays_within_guard(guard, chains, outcomes.drop_last());
        let before = removal_after(removal_over(guard, chains), outcomes.drop_last());
        match before {
            RemovalView::DeletingRule { more, chains: left, .. } => {
                if more.len() > 0 {
                    assert(guard.rules.contains(more[0]));
                    assert forall|i: int| 0 <= i < more.drop_first().len() implies guard.rules.contains(
                        #[trigger] more.drop_first()[i],
                    ) by {
                        assert(more.drop_first()[i] == more[i + 1]);
                    }
                } else {
                    lemma_looking_within(left, guard, chains);
                }
            },
            RemovalView::ListingChain { rest, .. } => {
                lemma_looking_within(rest, guard, chains);
            },
            RemovalView::DeletingChain { rest, .. } => {
                lemma_looking_within(rest, guard, chains);
            },
            _ => {},
        }
    }
}

/// Looking at some of the chains stays within them.
proof fn lemma_looking_within(
    left: Seq<Seq<char>>,
    guard: NftRuleGuardView,
    chains: Seq<Seq<char>>,
)
    requires
        all_among(left, chains),
    ensures
        stays_within(looking_at(left), guard, chains),
{
    if left.len() > 0 {
        assert(chains.contains(left[0]));
        assert forall|i: int| 0 <= i < left.drop_first().len() implies chains.contains(
            #[trigger] left.drop_first()[i],
        ) by {
            assert(left.drop_first()[i] == left[i + 1]);
        }
    }
}

/// The chains of the rules are those in which a rule stands.
pub proof fn chains_are_those_of_rules(rules: Seq<NftRuleView>, chain: Seq<char>)
    ensures
        chains_of(rules).contains(chain) <==> exists|i: int|
            0 <= i < rules.len() && (#[trigger] rules[i]).chain == chain,
        chains_of(rules).no_duplicates(),
    decreases rules.len(),
{
    if rules.len() > 0 {
        let before = rules.drop_last();
        let last = rules.last().chain;
        chains_are_those_of_rules(before, chain);
        if exists|i: int| 0 <= i < before.len() && (#[trigger] before[i]).chain == chain {
            let i = choose|i: int| 0 <= i < before.len() && (#[trigger] before[i]).chain == chain;
            assert(rules[i].chain == chain);
        }
        if exists|i: int| 0 <= i < rules.len() && (#[trigger] rules[i]).chain == chain {
            let i = choose|i: int| 0 <= i < rules.len() && (#[trigger] rules[i]).chain == chain;
            if i < before.len() {
                assert(before[i].chain == chain);
            }
        }
        lemma_joined_by(chains_of(before), last, chain);
        assert(rules[rules.len() - 1].chain == last);
    }
}

/// What is joined by a chain holds that chain and what it held before.
proof fn lemma_joined_by(chains: Seq<Seq<char>>, one: Seq<char>, chain: Seq<char>)
    ensures
        joined_by(chains, one).contains(chain) <==> chains.contains(chain) || chain == one,
        chains.no_duplicates() ==> joined_by(chains, one).no_duplicates(),
{
    if !chains.contains(one) {
        let now = chains.push(one);
        assert(now[now.len() - 1] == one);
        if chains.contains(chain) {
            let i = choose|i: int| 0 <= i < chains.len() && chains[i] == chain;
            assert(now[i] == chain);
        }
        if now.contains(chain) && chain != one {
            let i = choose|i: int| 0 <= i < now.len() && now[i] == chain;
            assert(chains[i] == chain);
        }
    }
}

/// A removal looks once at every chain in which the guard keeps a rule, and at every chain that a
/// setup makes.
pub proof fn every_chain_is_looked_at(rules: Seq<NftRuleView>, chain: Seq<char>)
    ensures
        visited_chains(rules).contains(chain) <==> {
            ||| exists|i: int| 0 <= i < rules.len() && (#[trigger] rules[i]).chain == chain
            ||| chain == "postrouting"@
            ||| chain == "prerouting"@
            ||| chain == "prerouting_mangle"@
        },
        visited_chains(rules).no_duplicates(),
{
    let kept = chains_of(rules);
    let first = joined_by(kept, "postrouting"@);
    let second = joined_by(first, "prerouting"@);
    chains_are_those_of_rules(rules, chain);
    lemma_joined_by(kept, "postrouting"@, chain);
    lemma_joined_by(first, "prerouting"@, chain);
    lemma_joined_by(second, "prerouting_mangle"@, chain);
}

/// A removal first deletes every rule that the guard keeps, in order, by chain and handle.
pub proof fn removal_deletes_every_kept_rule<E>(
    guard: NftRuleGuardView,
    chains: Seq<Seq<char>>,
    outcomes: Seq<OutcomeView<E>>,
)
    requires
        !guard.removed,
        outcomes.len() < guard.rules.len(),
    ensures
        removal_after(removal_over(guard, chains), outcomes).request() == Some(
            nft_run(
                delete_rule_args(
                    guard.rules[outcomes.len() as int].chain,
                    decimal(guard.rules[outcomes.len() as int].handle as nat),
                ),
            ),
        ),
{
    lemma_rules_left(guard, chains, outcomes);
}

/// After as many outcomes, so many rules are left to delete.
pub(crate) proof fn lemma_rules_left<E>(
    guard: NftRuleGuardView,
    chains: Seq<Seq<char>>,
    outcomes: Seq<OutcomeView<E>>,
)
    requires
        !guard.removed,
        outcomes.len() < guard.rules.len(),
    ensures
        removal_after(removal_over(guard, chains), outcomes) == deleting(
            guard.rules.skip(outcomes.len() as int),
            chains,
        ),
    decreases outcomes.len(),
{
    if outcomes.len() == 0 {
        assert(guard.rules.skip(0) == guard.rules);
    } else {
        lemma_rules_left(guard, chains, outcomes.drop_last());
        assert(guard.rules.skip(outcomes.len() - 1).drop_first() =~= guard.rules.skip(
            outcomes.len() as int,
        ));
    }
}

/// A chain is deleted only right after a listing that shows no rule in it.
pub proof fn chain_is_deleted_only_if_empty<E>(
    removal: RemovalView,
    outcome: OutcomeView<E>,
    chain: Seq<char>,
)
    requires
        removal.resumed(outcome) matches RemovalView::DeletingChain { chain: doomed, .. } && doomed
            == chain,
    ensures
        removal.request() == Some(nft_run(list_chain_args(chain))),
        shows_bare_chain(outcome),
{
}

/// The table is deleted only right after a listing that shows no chain in it.
pub proof fn table_is_deleted_only_if_empty<E>(removal: RemovalView, outcome: OutcomeView<E>)
    requires
        removal.resumed(outcome) is DeletingTable,
    ensures
        removal.request() == Some(nft_run(list_table_args())),
        shows_bare_table(outcome),
{
}

/// A removal spares the rules of others: it never asks to delete a rule that its guard does not
/// keep.
pub proof fn removal_spares_other_rules<E>(
    guard: NftRuleGuardView,
    chains: Seq<Seq<char>>,
    outcomes: Seq<OutcomeView<E>>,
    chain: Seq<char>,
    handle: u64,
)
    requires
        forall|i: int|
            0 <= i < guard.rules.len() ==> (#[trigger] guard.rules[i]).chain != chain
                || guard.rules[i].handle != handle,
    ensures
        removal_after(removal_over(guard, chains), outcomes).request() != Some(
            nft_run(delete_rule_args(chain, decimal(handle as nat))),
        ),
{
    let now = removal_after(removal_over(guard, chains), outcomes);
    let spared = delete_rule_args(chain, decimal(handle as nat));
    removal_stays_within_guard(guard, chains, outcomes);
    assert(spared.len() == 7);
    match now {
        RemovalView::DeletingRule { rule, .. } => {
            let args = delete_rule_args(rule.chain, decimal(rule.handle as nat));
            if args == spared {
                assert(args[4] == rule.chain && spared[4] == chain);
                assert(args[6] == decimal(rule.handle as nat) && spared[6] == decimal(
                    handle as nat,
                ));
                lemma_decimal_injective(rule.handle as nat, handle as nat);
                let i = choose|i: int| 0 <= i < guard.rules.len() && guard.rules[i] == rule;
                assert(guard.rules[i].chain == chain);
            }
        },
        RemovalView::ListingChain { chain, .. } => {
            assert(list_chain_args(chain).len() == 6);
        },
        RemovalView::DeletingChain { chain, .. } => {
            assert(delete_chain_args(chain).len() == 5);
        },
        RemovalView::ListingTable => {
            assert(list_table_args().len() == 4);
        },
        RemovalView::DeletingTable => {
            assert(delete_table_args().len() == 4);
        },
        RemovalView::Finished => {},
    }
}

/// Removing again does nothing: no request is needed once the rules were removed.
pub proof fn second_removal_does_nothing<E>(
    rules: Seq<NftRuleView>,
    outcomes: Seq<OutcomeView<E>>,
)
    ensures
        removal_after(
            removal_of(NftRuleGuardView { rules, removed: true }),
            outcomes,
        ).request() is None,
    decreases outcomes.len(),
{
    lemma_finished_stays(outcomes);
}

/// A removal that is finished stays finished.
proof fn lemma_finished_stays<E>(outcomes: Seq<OutcomeView<E>>)
    ensures
        removal_after(RemovalView::Finished, outcomes) == RemovalView::Finished,
    decreases outcomes.len(),
{
    if outcomes.len() > 0 {
        lemma_finished_stays(outcomes.drop_last());
    }
}

/// The most requests that a removal still needs.
pub open spec fn removal_cost(removal: RemovalView) -> nat {
    match removal {
        RemovalView::DeletingRule { more, chains, .. } => 1 + more.len() + 2 * chains.len() + 2,
        RemovalView::ListingChain { rest, .. } => 2 + 2 * rest.len() + 2,
        RemovalView::DeletingChain { rest, .. } => 1 + 2 * rest.len() + 2,
        RemovalView::ListingTable => 2,
        RemovalView::DeletingTable => 1,
        RemovalView::Finished => 0,
    }
}

/// A removal ends, whatever the system answers.
pub proof fn removal_ends<E>(removal: RemovalView, outcomes: Seq<OutcomeView<E>>)
    requires
        outcomes.len() >= removal_cost(removal),
    ensures
        removal_after(removal, outcomes) == RemovalView::Finished,
{
    lemma_removal_cost_falls(removal, outcomes);
}

/// A removal that is not finished after the outcomes needs less than before by their number.
proof fn lemma_removal_cost_falls<E>(removal: RemovalView, outcomes: Seq<OutcomeView<E>>)
    ensures
        removal_after(removal, outcomes) == RemovalView::Finished || 0 < removal_cost(
            removal_after(removal, outcomes),
        ) <= removal_cost(removal) - outcomes.len(),
    decreases outcomes.len(),
{
    if outcomes.len() > 0 {
        lemma_removal_cost_falls(removal, outcomes.drop_last());
    }
}

} // verus!
