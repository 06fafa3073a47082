//! What setups and removals make of the rules that stand in the table, as long as `nft` does
//! what it is asked and lists what stands.

use vstd::prelude::*;
use crate::command::{executed, OutcomeView};
use crate::guard::{NftRuleGuardView, NftRuleView};
use crate::interface::{detected, DetectionView};
use crate::laws::{
    guard_of, lemma_rules_left, removal_after, removal_stays_within_guard, setup_after,
    setup_keeps_earlier_rules, steps_left,
};
use crate::listing::{shown_rules, ListedRule};
use crate::removal::{
    removal_of, removal_over, shows_bare_chain, shows_bare_table, succeeded, visited_chains,
    RemovalView,
};
use crate::rule::{is_address, is_clear, rules_are_told_apart, shown_rule_is_found, TunnelRuleView};
use crate::setup::{
    beginning, matching_handles, plan, registered, step_args, Lookup, ProgressView, SetupView,
    StageView, StepView, TargetView,
};

verus! {

/// A rule that stands in a chain of the table: its text as it is listed, and its handle.
pub struct Standing {
    pub chain: Seq<char>,
    pub text: Seq<char>,
    pub handle: u64,
}

/// The rules of the chain among those that stand, in order.
pub open spec fn listing(standing: Seq<Standing>, chain: Seq<char>) -> Seq<ListedRule>
    decreases standing.len(),
{
    if standing.len() == 0 {
        seq![]
    } else {
        let before = listing(standing.drop_last(), chain);
        let last = standing.last();
        if last.chain == chain {
            before.push(ListedRule { text: last.text, handle: last.handle })
        } else {
            before
        }
    }
}

/// The handles of what stands and is taken for the rule, in order.
pub open spec fn handles_for(standing: Seq<Standing>, rule: TunnelRuleView) -> Seq<u64> {
    matching_handles(rule, listing(standing, rule.chain()))
}

/// The rule stands in its chain.
pub open spec fn stands(standing: Seq<Standing>, rule: TunnelRuleView) -> bool {
    handles_for(standing, rule).len() > 0
}

/// A rule stands in the chain under the handle.
pub open spec fn is_standing(standing: Seq<Standing>, chain: Seq<char>, handle: u64) -> bool {
    exists|i: int|
        0 <= i < standing.len() && (#[trigger] standing[i]).chain == chain && standing[i].handle
            == handle
}

/// The rule was put behind what stands, listed with this text, under a handle of its own.
pub open spec fn is_addition(
    before: Seq<Standing>,
    after: Seq<Standing>,
    rule: TunnelRuleView,
    text: Seq<char>,
    handle: u64,
) -> bool {
    &&& rule.is_shown_by(text)
    &&& !is_standing(before, rule.chain(), handle)
    &&& after == before.push(Standing { chain: rule.chain(), text, handle })
}

/// The rule was put behind what stands.
pub open spec fn added(before: Seq<Standing>, after: Seq<Standing>, rule: TunnelRuleView) -> bool {
    exists|text: Seq<char>, handle: u64| is_addition(before, after, rule, text, handle)
}

/// What `nft` answers to the request of a setup, and what stands before and after: it lists the
/// rules that stand, adds the rule that it is asked to add, and leaves the rest alone.
pub open spec fn setup_is_answered<E>(
    setup: SetupView,
    outcome: OutcomeView<E>,
    before: Seq<Standing>,
    after: Seq<Standing>,
) -> bool {
    match setup.stage {
        StageView::Detecting { .. } => after == before,
        StageView::Installing { step, lookup, .. } => {
            if step is Rule && lookup != Lookup::Adding {
                &&& after == before
                &&& shown_rules(outcome) == Ok::<Seq<ListedRule>, E>(
                    listing(before, step->Rule_0.chain()),
                )
            } else {
                &&& executed(step_args(step, lookup), outcome) is Ok
                &&& if step is Rule {
                    added(before, after, step->Rule_0)
                } else {
                    after == before
                }
            }
        },
    }
}

/// The outcomes answer the requests of the setup one by one; `states` is what stands before the
/// first, between them and after the last.
pub open spec fn setup_runs<E>(
    setup: SetupView,
    outcomes: Seq<OutcomeView<E>>,
    states: Seq<Seq<Standing>>,
) -> bool
    decreases outcomes.len(),
{
    &&& states.len() == outcomes.len() + 1
    &&& outcomes.len() > 0 ==> {
        &&& setup_runs(setup, outcomes.drop_last(), states.drop_last())
        &&& setup_after(setup, outcomes.drop_last()) is Continue
        &&& setup_is_answered(
            setup_after(setup, outcomes.drop_last())->Continue_0,
            outcomes.last(),
            states.drop_last().last(),
            states.last(),
        )
    }
}

/// All rules among the steps stand.
pub open spec fn all_stand(standing: Seq<Standing>, steps: Seq<StepView>) -> bool {
    forall|i: int|
        0 <= i < steps.len() && #[trigger] steps[i] is Rule ==> stands(standing, steps[i]->Rule_0)
}

/// The rules are told apart: they belong to different chains or are written differently.
pub open spec fn differ(a: TunnelRuleView, b: TunnelRuleView) -> bool {
    a.chain() != b.chain() || a.as_written() != b.as_written()
}

/// The rules among the steps are plain, and no two of them are the same.
pub open spec fn is_sound(steps: Seq<StepView>) -> bool {
    &&& forall|i: int|
        0 <= i < steps.len() && #[trigger] steps[i] is Rule ==> steps[i]->Rule_0.is_plain()
    &&& forall|i: int, j: int|
        0 <= i < j < steps.len() && #[trigger] steps[i] is Rule && #[trigger] steps[j] is Rule
            ==> differ(steps[i]->Rule_0, steps[j]->Rule_0)
}

/// The setup begins its steps.
pub open spec fn begins(setup: SetupView) -> bool {
    setup.stage is Installing && setup.stage->lookup == Lookup::Before
}

/// What a guard keeps for a step, if this stands.
pub open spec fn kept_for_step(standing: Seq<Standing>, step: StepView) -> Seq<NftRuleView> {
    if step is Rule {
        registered(step->Rule_0, handles_for(standing, step->Rule_0))
    } else {
        seq![]
    }
}

/// What a guard keeps for the steps, if this stands.
pub open spec fn kept_for(standing: Seq<Standing>, steps: Seq<StepView>) -> Seq<NftRuleView>
    decreases steps.len(),
{
    if steps.len() == 0 {
        seq![]
    } else {
        kept_for(standing, steps.drop_last()) + kept_for_step(standing, steps.last())
    }
}

/// The steps of a plan are sound where names can be told from what follows them and peers are
/// addresses.
pub proof fn plan_is_sound(target: TargetView, iface: Option<Seq<char>>)
    requires
        iface is Some ==> is_clear(iface->0),
        match target {
            TargetView::Client { tun, .. } => is_clear(tun),
            TargetView::Server { tun, peer, peer6, .. } => {
                &&& is_clear(tun)
                &&& is_address(peer)
                &&& peer6 is Some ==> is_address(peer6->0)
            },
        },
    ensures
        is_sound(plan(target, iface)),
{
    reveal_strlit("postrouting");
    reveal_strlit("prerouting");
    reveal_strlit("prerouting_mangle");
    assert("postrouting"@.len() == 11 && "prerouting"@.len() == 10 && "prerouting_mangle"@.len()
        == 17);
}

/// The search for the interface keeps the guard as it is and ends with the beginning of the steps
/// that were planned for what it found.
pub proof fn search_leads_to_steps<E>(setup: SetupView, outcome: OutcomeView<E>)
    requires
        setup.stage is Detecting,
    ensures
        match setup.resumed(outcome) {
            ProgressView::Continue(next) => {
                &&& next.guard == setup.guard
                &&& match detected(setup.stage->probe, outcome) {
                    DetectionView::Found(name) => begins(next) && steps_left(next.stage) == plan(
                        setup.stage->target,
                        Some(name),
                    ),
                    DetectionView::Next(_) => next.stage is Detecting,
                    DetectionView::Nothing => begins(next) && steps_left(next.stage) == plan(
                        setup.stage->target,
                        None,
                    ),
                }
            },
            _ => false,
        },
{
    let target = setup.stage->target;
    match detected(setup.stage->probe, outcome) {
        DetectionView::Found(name) => {
            let steps = plan(target, Some(name));
            assert(steps_left(beginning(steps)) =~= steps);
        },
        DetectionView::Next(_) => {},
        DetectionView::Nothing => {
            let steps = plan(target, None);
            assert(steps_left(beginning(steps)) =~= steps);
        },
    }
}

/// The verdicts on one more listed rule.
proof fn lemma_matching_push(rule: TunnelRuleView, listed: Seq<ListedRule>, one: ListedRule)
    ensures
        matching_handles(rule, listed.push(one)) == (if rule.matches(one.text) {
            matching_handles(rule, listed).push(one.handle)
        } else {
            matching_handles(rule, listed)
        }),
{
    let f = |one: ListedRule| rule.matches(one.text);
    let more = listed.push(one);
    assert(more.drop_last() =~= listed);
    assert(more.map_values(f).drop_last() =~= listed.map_values(f));
}

/// What is taken for a rule when one more stands.
proof fn lemma_handles_push(standing: Seq<Standing>, one: Standing, rule: TunnelRuleView)
    ensures
        handles_for(standing.push(one), rule) == (if one.chain == rule.chain() && rule.matches(
            one.text,
        ) {
            handles_for(standing, rule).push(one.handle)
        } else {
            handles_for(standing, rule)
        }),
{
    assert(standing.push(one).drop_last() =~= standing);
    if one.chain == rule.chain() {
        lemma_matching_push(
            rule,
            listing(standing, rule.chain()),
            ListedRule { text: one.text, handle: one.handle },
        );
    }
}

/// What is taken for a rule stands, in its chain and with a text that is taken for it.
pub(crate) proof fn lemma_handle_source(standing: Seq<Standing>, rule: TunnelRuleView, k: int) -> (i: int)
    requires
        0 <= k < handles_for(standing, rule).len(),
    ensures
        0 <= i < standing.len(),
        standing[i].chain == rule.chain(),
        standing[i].handle == handles_for(standing, rule)[k],
        rule.matches(standing[i].text),
    decreases standing.len(),
{
    if standing.len() == 0 {
        assert(listing(standing, rule.chain()).len() == 0);
        0
    } else {
        let before = standing.drop_last();
        assert(before.push(standing.last()) =~= standing);
        lemma_handles_push(before, standing.last(), rule);
        if k < handles_for(before, rule).len() {
            lemma_handle_source(before, rule, k)
        } else {
            standing.len() - 1
        }
    }
}

/// What stands in the chain of a rule with a text that is taken for it is taken for it.
proof fn lemma_handle_listed(standing: Seq<Standing>, rule: TunnelRuleView, i: int) -> (k: int)
    requires
        0 <= i < standing.len(),
        standing[i].chain == rule.chain(),
        rule.matches(standing[i].text),
    ensures
        0 <= k < handles_for(standing, rule).len(),
        handles_for(standing, rule)[k] == standing[i].handle,
    decreases standing.len(),
{
    let before = standing.drop_last();
    assert(before.push(standing.last()) =~= standing);
    lemma_handles_push(before, standing.last(), rule);
    if i < before.len() {
        lemma_handle_listed(before, rule, i)
    } else {
        handles_for(before, rule).len() as int
    }
}

/// Where each rule among the steps is taken for as much as before, as much is kept for them.
proof fn lemma_kept_unchanged(before: Seq<Standing>, after: Seq<Standing>, steps: Seq<StepView>)
    requires
        forall|i: int|
            0 <= i < steps.len() && #[trigger] steps[i] is Rule ==> handles_for(
                after,
                steps[i]->Rule_0,
            ) == handles_for(before, steps[i]->Rule_0),
    ensures
        kept_for(after, steps) == kept_for(before, steps),
    decreases steps.len(),
{
    if steps.len() > 0 {
        let fewer = steps.drop_last();
        assert forall|i: int| 0 <= i < fewer.len() && #[trigger] fewer[i] is Rule implies handles_for(
            after,
            fewer[i]->Rule_0,
        ) == handles_for(before, fewer[i]->Rule_0) by {
            assert(fewer[i] == steps[i]);
        }
        lemma_kept_unchanged(before, after, fewer);
        assert(steps[steps.len() - 1] == steps.last());
    }
}

/// A setup removes nothing: whatever stood before still stands after it, in front.
pub proof fn setup_removes_nothing<E>(
    setup: SetupView,
    outcomes: Seq<OutcomeView<E>>,
    states: Seq<Seq<Standing>>,
)
    requires
        setup_runs(setup, outcomes, states),
    ensures
        states[0].is_prefix_of(states.last()),
    decreases outcomes.len(),
{
    if outcomes.len() > 0 {
        setup_removes_nothing(setup, outcomes.drop_last(), states.drop_last());
        assert(states.drop_last()[0] == states[0]);
        lemma_grows(
            setup_after(setup, outcomes.drop_last())->Continue_0,
            outcomes.last(),
            states.drop_last().last(),
            states.last(),
        );
    }
}

/// An answer to a setup removes nothing.
proof fn lemma_grows<E>(
    now: SetupView,
    outcome: OutcomeView<E>,
    before: Seq<Standing>,
    after: Seq<Standing>,
)
    requires
        setup_is_answered(now, outcome, before, after),
    ensures
        before.is_prefix_of(after),
{
}

/// What an answer leaves as it was: what is taken for a rule other than the one at hand.
proof fn lemma_others_untouched<E>(
    now: SetupView,
    outcome: OutcomeView<E>,
    before: Seq<Standing>,
    after: Seq<Standing>,
    other: TunnelRuleView,
)
    requires
        now.stage is Installing,
        setup_is_answered(now, outcome, before, after),
        other.is_plain(),
        now.stage->step is Rule ==> now.stage->step->Rule_0.is_plain() && differ(
            other,
            now.stage->step->Rule_0,
        ),
    ensures
        handles_for(after, other) == handles_for(before, other),
{
    if now.stage->step is Rule && now.stage->lookup == Lookup::Adding {
        let rule = now.stage->step->Rule_0;
        let (text, handle) = choose|text: Seq<char>, handle: u64|
            is_addition(before, after, rule, text, handle);
        let one = Standing { chain: rule.chain(), text, handle };
        lemma_handles_push(before, one, other);
        if other.chain() == rule.chain() {
            rules_are_told_apart(other, rule, text);
        }
    }
}

/// What one answer does for a setup: the step goes on or is done; the rule of a step that is done
/// stands, and the guard keeps what is taken for it.
proof fn lemma_answered_step<E>(
    now: SetupView,
    outcome: OutcomeView<E>,
    before: Seq<Standing>,
    after: Seq<Standing>,
)
    requires
        now.stage is Installing,
        setup_is_answered(now, outcome, before, after),
        now.stage->step is Rule ==> now.stage->step->Rule_0.is_plain(),
        now.stage->step is Rule && now.stage->lookup == Lookup::After ==> stands(
            before,
            now.stage->step->Rule_0,
        ),
    ensures
        match now.resumed(outcome) {
            ProgressView::Continue(next) => {
                &&& next.stage is Installing
                &&& if next.stage->lookup == Lookup::Before {
                    &&& now.stage->rest.len() > 0
                    &&& steps_left(next.stage) == now.stage->rest
                    &&& now.stage->step is Rule ==> stands(after, now.stage->step->Rule_0)
                    &&& next.guard.rules == now.guard.rules + kept_for_step(after, now.stage->step)
                } else {
                    &&& next.stage->step == now.stage->step
                    &&& next.stage->rest == now.stage->rest
                    &&& next.guard == now.guard
                    &&& next.stage->step is Rule && next.stage->lookup == Lookup::After ==> stands(
                        after,
                        now.stage->step->Rule_0,
                    )
                }
            },
            ProgressView::Done(guard) => {
                &&& now.stage->rest.len() == 0
                &&& now.stage->step is Rule ==> stands(after, now.stage->step->Rule_0)
                &&& guard.rules == now.guard.rules + kept_for_step(after, now.stage->step)
            },
            ProgressView::Failed { .. } => false,
        },
{
    let step = now.stage->step;
    let rest = now.stage->rest;
    if rest.len() > 0 {
        assert(seq![rest[0]] + rest.drop_first() =~= rest);
    }
    if step is Rule {
        let rule = step->Rule_0;
        if now.stage->lookup == Lookup::Adding {
            let (text, handle) = choose|text: Seq<char>, handle: u64|
                is_addition(before, after, rule, text, handle);
            shown_rule_is_found(rule, text);
            lemma_handles_push(before, Standing { chain: rule.chain(), text, handle }, rule);
        }
    } else {
        assert(now.guard.rules + Seq::<NftRuleView>::empty() =~= now.guard.rules);
    }
}

/// Where a run that began its steps stands: so many steps are behind it, their rules stand, and
/// the guard keeps what is taken for them.
proof fn lemma_steps_behind<E>(
    setup: SetupView,
    outcomes: Seq<OutcomeView<E>>,
    states: Seq<Seq<Standing>>,
) -> (behind: int)
    requires
        setup_runs(setup, outcomes, states),
        begins(setup),
        is_sound(steps_left(setup.stage)),
    ensures
        0 <= behind <= steps_left(setup.stage).len(),
        all_stand(states.last(), steps_left(setup.stage).take(behind)),
        guard_of(setup_after(setup, outcomes)).rules == setup.guard.rules + kept_for(
            states.last(),
            steps_left(setup.stage).take(behind),
        ),
        match setup_after(setup, outcomes) {
            ProgressView::Continue(now) => {
                &&& now.stage is Installing
                &&& behind < steps_left(setup.stage).len()
                &&& steps_left(now.stage) == steps_left(setup.stage).skip(behind)
                &&& now.stage->step == steps_left(setup.stage)[behind]
                &&& now.stage->step is Rule && now.stage->lookup == Lookup::After ==> stands(
                    states.last(),
                    now.stage->step->Rule_0,
                )
            },
            ProgressView::Done(_) => behind == steps_left(setup.stage).len(),
            ProgressView::Failed { .. } => false,
        },
    decreases outcomes.len(),
{
    let steps = steps_left(setup.stage);
    if outcomes.len() == 0 {
        assert(steps.skip(0) =~= steps);
        assert(steps.take(0) =~= Seq::<StepView>::empty());
        assert(setup.guard.rules + Seq::<NftRuleView>::empty() =~= setup.guard.rules);
        0
    } else {
        let earlier = lemma_steps_behind(setup, outcomes.drop_last(), states.drop_last());
        let now = setup_after(setup, outcomes.drop_last())->Continue_0;
        let outcome = outcomes.last();
        let before = states.drop_last().last();
        let after = states.last();
        let done = steps.take(earlier);
        lemma_answered_step(now, outcome, before, after);
        assert forall|i: int| 0 <= i < done.len() && #[trigger] done[i] is Rule implies handles_for(
            after,
            done[i]->Rule_0,
        ) == handles_for(before, done[i]->Rule_0) by {
            assert(done[i] == steps[i]);
            assert(steps[earlier] == now.stage->step);
            lemma_others_untouched(now, outcome, before, after, done[i]->Rule_0);
        }
        lemma_kept_unchanged(before, after, done);
        assert(steps_left(now.stage).drop_first() =~= now.stage->rest);
        assert(steps.skip(earlier).drop_first() =~= steps.skip(earlier + 1));
        let next = setup_after(setup, outcomes);
        if next is Continue && next->Continue_0.stage->lookup != Lookup::Before {
            assert(steps_left(next->Continue_0.stage) == steps_left(now.stage));
            earlier
        } else {
            let more = steps.take(earlier + 1);
            assert(more.drop_last() =~= done);
            assert(more.last() == now.stage->step);
            assert(guard_of(next).rules =~= setup.guard.rules + kept_for(after, more));
            assert(all_stand(after, more)) by {
                assert forall|i: int| 0 <= i < more.len() && #[trigger] more[i] is Rule implies stands(
                    after,
                    more[i]->Rule_0,
                ) by {
                    if i < earlier {
                        assert(done[i] == more[i]);
                    }
                }
            }
            if next is Continue {
                assert(steps_left(next->Continue_0.stage)[0] == next->Continue_0.stage->step);
                assert(steps.skip(earlier + 1)[0] == steps[earlier + 1]);
            }
            earlier + 1
        }
    }
}

/// When a setup is done, all its rules stand, and its guard keeps everything that is taken for
/// them, step by step.
pub proof fn done_setup_has_its_rules<E>(
    setup: SetupView,
    outcomes: Seq<OutcomeView<E>>,
    states: Seq<Seq<Standing>>,
    guard: NftRuleGuardView,
)
    requires
        setup_runs(setup, outcomes, states),
        begins(setup),
        is_sound(steps_left(setup.stage)),
        setup_after(setup, outcomes) == ProgressView::<E>::Done(guard),
    ensures
        all_stand(states.last(), steps_left(setup.stage)),
        guard.rules == setup.guard.rules + kept_for(states.last(), steps_left(setup.stage)),
        guard.removed == setup.guard.removed,
{
    let behind = lemma_steps_behind(setup, outcomes, states);
    let steps = steps_left(setup.stage);
    assert(steps.take(steps.len() as int) =~= steps);
    setup_keeps_earlier_rules(setup, outcomes);
}

/// Where `nft` does what it is asked, a setup does not fail.
pub proof fn answered_setup_does_not_fail<E>(
    setup: SetupView,
    outcomes: Seq<OutcomeView<E>>,
    states: Seq<Seq<Standing>>,
)
    requires
        setup_runs(setup, outcomes, states),
    ensures
        !(setup_after(setup, outcomes) is Failed),
{
}

/// A setup whose rules all stand adds none: what stands stays as it is.
pub proof fn setup_of_standing_rules_changes_nothing<E>(
    setup: SetupView,
    outcomes: Seq<OutcomeView<E>>,
    states: Seq<Seq<Standing>>,
)
    requires
        setup_runs(setup, outcomes, states),
        begins(setup),
        is_sound(steps_left(setup.stage)),
        all_stand(states[0], steps_left(setup.stage)),
    ensures
        states.last() == states[0],
        setup_after(setup, outcomes) is Continue ==> setup_after(
            setup,
            outcomes,
        )->Continue_0.stage->lookup == Lookup::Before,
    decreases outcomes.len(),
{
    if outcomes.len() > 0 {
        assert(states.drop_last()[0] == states[0]);
        setup_of_standing_rules_changes_nothing(setup, outcomes.drop_last(), states.drop_last());
        let behind = lemma_steps_behind(setup, outcomes.drop_last(), states.drop_last());
    }
}

/// Setup is idempotent: when it is done, doing it again changes nothing, so no rule is
/// duplicated.
pub proof fn setup_is_idempotent<E>(
    setup: SetupView,
    first: Seq<OutcomeView<E>>,
    first_states: Seq<Seq<Standing>>,
    second: Seq<OutcomeView<E>>,
    second_states: Seq<Seq<Standing>>,
)
    requires
        begins(setup),
        is_sound(steps_left(setup.stage)),
        setup_runs(setup, first, first_states),
        setup_after(setup, first) is Done,
        setup_runs(setup, second, second_states),
        second_states[0] == first_states.last(),
    ensures
        second_states.last() == first_states.last(),
{
    done_setup_has_its_rules(setup, first, first_states, setup_after(setup, first)->Done_0);
    setup_of_standing_rules_changes_nothing(setup, second, second_states);
}

/// The outcomes belong to the search for the interface: each of them answers a source.
pub open spec fn is_search<E>(setup: SetupView, search: Seq<OutcomeView<E>>) -> bool
    decreases search.len(),
{
    search.len() > 0 ==> {
        &&& is_search(setup, search.drop_last())
        &&& setup_after(setup, search.drop_last()) is Continue
        &&& setup_after(setup, search.drop_last())->Continue_0.stage is Detecting
    }
}

/// A run is a run of its beginning, and of what begins there with the rest.
pub(crate) proof fn lemma_run_splits<E>(
    setup: SetupView,
    search: Seq<OutcomeView<E>>,
    rest: Seq<OutcomeView<E>>,
    states: Seq<Seq<Standing>>,
    begun: SetupView,
)
    requires
        setup_runs(setup, search + rest, states),
        setup_after(setup, search) == ProgressView::<E>::Continue(begun),
    ensures
        setup_runs(setup, search, states.take(search.len() as int + 1)),
        setup_runs(begun, rest, states.skip(search.len() as int)),
        setup_after(setup, search + rest) == setup_after(begun, rest),
    decreases rest.len(),
{
    let all = search + rest;
    let n = search.len() as int;
    if rest.len() == 0 {
        assert(all =~= search);
        assert(states.take(n + 1) =~= states);
        assert(states.skip(n).len() == 1);
    } else {
        assert(all.drop_last() =~= search + rest.drop_last());
        lemma_run_splits(setup, search, rest.drop_last(), states.drop_last(), begun);
        assert(states.drop_last().take(n + 1) =~= states.take(n + 1));
        assert(states.drop_last().skip(n) =~= states.skip(n).drop_last());
        assert(states.skip(n).last() == states.last());
        assert(states.skip(n).drop_last().last() == states.drop_last().last());
        assert(all.last() == rest.last());
    }
}

/// The search for the interface changes neither what stands nor what the guard keeps.
proof fn lemma_search_changes_nothing<E>(
    setup: SetupView,
    search: Seq<OutcomeView<E>>,
    states: Seq<Seq<Standing>>,
)
    requires
        is_search(setup, search),
        setup_runs(setup, search, states),
        setup_after(setup, search) is Continue,
    ensures
        states.last() == states[0],
        setup_after(setup, search)->Continue_0.guard == setup.guard,
    decreases search.len(),
{
    if search.len() > 0 {
        lemma_search_changes_nothing(setup, search.drop_last(), states.drop_last());
        assert(states.drop_last()[0] == states[0]);
    }
}

/// Taking the steps a second time keeps the same rules.
proof fn lemma_same_rules_again<E>(
    setup: SetupView,
    first: Seq<OutcomeView<E>>,
    first_states: Seq<Seq<Standing>>,
    second: Seq<OutcomeView<E>>,
    second_states: Seq<Seq<Standing>>,
)
    requires
        begins(setup),
        is_sound(steps_left(setup.stage)),
        setup_runs(setup, first, first_states),
        setup_after(setup, first) is Done,
        setup_runs(setup, second, second_states),
        second_states[0] == first_states.last(),
    ensures
        second_states.last() == first_states.last(),
        match setup_after(setup, second) {
            ProgressView::Continue(now) => now.stage is Installing && now.stage->lookup
                == Lookup::Before,
            ProgressView::Done(guard) => guard == setup_after(setup, first)->Done_0,
            ProgressView::Failed { .. } => false,
        },
{
    let kept = setup_after(setup, first)->Done_0;
    done_setup_has_its_rules(setup, first, first_states, kept);
    setup_of_standing_rules_changes_nothing(setup, second, second_states);
    let behind = lemma_steps_behind(setup, second, second_states);
    if setup_after(setup, second) is Done {
        let again = setup_after(setup, second)->Done_0;
        done_setup_has_its_rules(setup, second, second_states, again);
    }
}

/// Setting up a second time keeps the same rules: where both searches for the interface come to
/// the same, the first setup is done and nothing changes before the second begins, the second
/// adds no rule, and when it is done its guard keeps the same chains, handles and descriptions in
/// the same order.
pub proof fn second_setup_keeps_the_same_rules<E>(
    setup: SetupView,
    begun: SetupView,
    first_search: Seq<OutcomeView<E>>,
    first: Seq<OutcomeView<E>>,
    first_states: Seq<Seq<Standing>>,
    second_search: Seq<OutcomeView<E>>,
    second: Seq<OutcomeView<E>>,
    second_states: Seq<Seq<Standing>>,
)
    requires
        is_search(setup, first_search),
        is_search(setup, second_search),
        setup_after(setup, first_search) == ProgressView::<E>::Continue(begun),
        setup_after(setup, second_search) == ProgressView::<E>::Continue(begun),
        begins(begun),
        is_sound(steps_left(begun.stage)),
        setup_runs(setup, first_search + first, first_states),
        setup_after(setup, first_search + first) is Done,
        setup_runs(setup, second_search + second, second_states),
        second_states[0] == first_states.last(),
    ensures
        second_states.last() == first_states.last(),
        match setup_after(setup, second_search + second) {
            ProgressView::Continue(now) => now.stage is Installing && now.stage->lookup
                == Lookup::Before,
            ProgressView::Done(guard) => guard == setup_after(setup, first_search + first)->Done_0,
            ProgressView::Failed { .. } => false,
        },
{
    let n = first_search.len() as int;
    let m = second_search.len() as int;
    let earlier = first_states.skip(n);
    let later = second_states.skip(m);
    assert(setup_runs(begun, first, earlier) && setup_after(begun, first) == setup_after(
        setup,
        first_search + first,
    )) by {
        lemma_run_splits(setup, first_search, first, first_states, begun);
    }
    lemma_run_splits(setup, second_search, second, second_states, begun);
    assert(second_states[m] == second_states[0]) by {
        let searched = second_states.take(m + 1);
        lemma_search_changes_nothing(setup, second_search, searched);
        assert(searched.last() == second_states[m]);
        assert(searched[0] == second_states[0]);
    }
    assert(earlier.last() == first_states.last());
    assert(later[0] == second_states[m]);
    assert(later.last() == second_states.last());
    lemma_same_rules_again(begun, first, earlier, second, later);
}

/// What is kept for the steps stands: it comes from a rule among them, and from a handle that is
/// taken for it.
proof fn lemma_kept_source(standing: Seq<Standing>, steps: Seq<StepView>, k: int) -> (from: (
    int,
    int,
))
    requires
        0 <= k < kept_for(standing, steps).len(),
    ensures
        0 <= from.0 < steps.len(),
        steps[from.0] is Rule,
        0 <= from.1 < standing.len(),
        standing[from.1].chain == steps[from.0]->Rule_0.chain(),
        steps[from.0]->Rule_0.matches(standing[from.1].text),
        kept_for(standing, steps)[k].chain == standing[from.1].chain,
        kept_for(standing, steps)[k].handle == standing[from.1].handle,
    decreases steps.len(),
{
    if steps.len() == 0 {
        (0, 0)
    } else {
        let before = kept_for(standing, steps.drop_last());
        if k < before.len() {
            let from = lemma_kept_source(standing, steps.drop_last(), k);
            assert(steps.drop_last()[from.0] == steps[from.0]);
            from
        } else {
            let rule = steps.last()->Rule_0;
            let at = k - before.len();
            assert(steps.last() is Rule);
            let handles = handles_for(standing, rule);
            assert(kept_for(standing, steps)[k] == registered(rule, handles)[at]);
            let i = lemma_handle_source(standing, rule, at);
            (steps.len() - 1, i)
        }
    }
}

/// What stands and is taken for a rule among the steps is kept for them.
proof fn lemma_kept_member(standing: Seq<Standing>, steps: Seq<StepView>, j: int, i: int) -> (k:
    int)
    requires
        0 <= j < steps.len(),
        steps[j] is Rule,
        0 <= i < standing.len(),
        standing[i].chain == steps[j]->Rule_0.chain(),
        steps[j]->Rule_0.matches(standing[i].text),
    ensures
        0 <= k < kept_for(standing, steps).len(),
        kept_for(standing, steps)[k].chain == standing[i].chain,
        kept_for(standing, steps)[k].handle == standing[i].handle,
    decreases steps.len(),
{
    let before = kept_for(standing, steps.drop_last());
    if j < steps.len() - 1 {
        assert(steps.drop_last()[j] == steps[j]);
        lemma_kept_member(standing, steps.drop_last(), j, i)
    } else {
        let rule = steps[j]->Rule_0;
        let handles = handles_for(standing, rule);
        let at = lemma_handle_listed(standing, rule, i);
        assert(kept_for(standing, steps)[before.len() + at] == registered(rule, handles)[at]);
        before.len() + at
    }
}

/// The rules that a setup lets its guard keep stand in their chains under their handles.
pub proof fn kept_rules_stand<E>(
    setup: SetupView,
    outcomes: Seq<OutcomeView<E>>,
    states: Seq<Seq<Standing>>,
    i: int,
)
    requires
        setup_runs(setup, outcomes, states),
        begins(setup),
        is_sound(steps_left(setup.stage)),
        setup.guard.rules.len() <= i < guard_of(setup_after(setup, outcomes)).rules.len(),
    ensures
        is_standing(
            states.last(),
            guard_of(setup_after(setup, outcomes)).rules[i].chain,
            guard_of(setup_after(setup, outcomes)).rules[i].handle,
        ),
{
    let behind = lemma_steps_behind(setup, outcomes, states);
    let done = steps_left(setup.stage).take(behind);
    let at = i - setup.guard.rules.len();
    let from = lemma_kept_source(states.last(), done, at);
    assert(guard_of(setup_after(setup, outcomes)).rules[i] == kept_for(states.last(), done)[at]);
}

/// What is new after a setup shows a rule among its steps, and has a handle under which nothing
/// stood in its chain before.
proof fn lemma_new_rules<E>(
    setup: SetupView,
    outcomes: Seq<OutcomeView<E>>,
    states: Seq<Seq<Standing>>,
    i: int,
) -> (j: int)
    requires
        setup_runs(setup, outcomes, states),
        begins(setup),
        is_sound(steps_left(setup.stage)),
        states[0].len() <= i < states.last().len(),
    ensures
        0 <= j < steps_left(setup.stage).len(),
        steps_left(setup.stage)[j] is Rule,
        states.last()[i].chain == steps_left(setup.stage)[j]->Rule_0.chain(),
        steps_left(setup.stage)[j]->Rule_0.is_shown_by(states.last()[i].text),
        !is_standing(states[0], states.last()[i].chain, states.last()[i].handle),
    decreases outcomes.len(),
{
    if outcomes.len() == 0 {
        0
    } else {
        assert(states.drop_last()[0] == states[0]);
        let before = states.drop_last().last();
        let now = setup_after(setup, outcomes.drop_last())->Continue_0;
        setup_removes_nothing(setup, outcomes.drop_last(), states.drop_last());
        let behind = lemma_steps_behind(setup, outcomes.drop_last(), states.drop_last());
        lemma_grows(now, outcomes.last(), before, states.last());
        if i < before.len() {
            assert(states.last()[i] == before[i]);
            lemma_new_rules(setup, outcomes.drop_last(), states.drop_last(), i)
        } else {
            let rule = now.stage->step->Rule_0;
            let (text, handle) = choose|text: Seq<char>, handle: u64|
                is_addition(before, states.last(), rule, text, handle);
            if is_standing(states[0], rule.chain(), handle) {
                let at = choose|at: int|
                    0 <= at < states[0].len() && (#[trigger] states[0][at]).chain == rule.chain()
                        && states[0][at].handle == handle;
                assert(before[at] == states[0][at]);
            }
            behind
        }
    }
}

/// The guard keeps a rule of the chain under the handle.
pub open spec fn keeps(guard: NftRuleGuardView, chain: Seq<char>, handle: u64) -> bool {
    exists|i: int|
        0 <= i < guard.rules.len() && (#[trigger] guard.rules[i]).chain == chain
            && guard.rules[i].handle == handle
}

/// What `nft` answers to the request of a removal, and what stands before and after: it deletes
/// the rule, the chain or the table that it is asked to delete, or fails and leaves all as it
/// was, and what it lists as empty is empty.
pub open spec fn removal_is_answered<E>(
    removal: RemovalView,
    outcome: OutcomeView<E>,
    before: Seq<Standing>,
    after: Seq<Standing>,
) -> bool {
    match removal {
        RemovalView::DeletingRule { rule, .. } => if succeeded(outcome) {
            after == before.filter(
                |one: Standing| one.chain != rule.chain || one.handle != rule.handle,
            )
        } else {
            after == before
        },
        RemovalView::ListingChain { chain, .. } => {
            &&& after == before
            &&& shows_bare_chain(outcome) ==> is_bare(before, chain)
        },
        RemovalView::DeletingChain { chain, .. } => if succeeded(outcome) {
            after == before.filter(|one: Standing| one.chain != chain)
        } else {
            after == before
        },
        RemovalView::ListingTable => {
            &&& after == before
            &&& shows_bare_table(outcome) ==> before.len() == 0
        },
        RemovalView::DeletingTable => if succeeded(outcome) {
            after == Seq::<Standing>::empty()
        } else {
            after == before
        },
        RemovalView::Finished => after == before,
    }
}

/// No rule stands in the chain.
pub open spec fn is_bare(standing: Seq<Standing>, chain: Seq<char>) -> bool {
    forall|i: int| 0 <= i < standing.len() ==> (#[trigger] standing[i]).chain != chain
}

/// The outcomes answer the requests of the removal one by one; `states` is what stands before the
/// first, between them and after the last.
pub open spec fn removal_runs<E>(
    removal: RemovalView,
    outcomes: Seq<OutcomeView<E>>,
    states: Seq<Seq<Standing>>,
) -> bool
    decreases outcomes.len(),
{
    &&& states.len() == outcomes.len() + 1
    &&& outcomes.len() > 0 ==> {
        &&& removal_runs(removal, outcomes.drop_last(), states.drop_last())
        &&& removal_is_answered(
            removal_after(removal, outcomes.drop_last()),
            outcomes.last(),
            states.drop_last().last(),
            states.last(),
        )
    }
}

/// A filter that lets all pass changes nothing.
proof fn lemma_all_pass(standing: Seq<Standing>, f: spec_fn(Standing) -> bool)
    requires
        forall|i: int| 0 <= i < standing.len() ==> f(#[trigger] standing[i]),
    ensures
        standing.filter(f) == standing,
    decreases standing.len(),
{
    reveal(Seq::filter);
    if standing.len() > 0 {
        let fewer = standing.drop_last();
        assert forall|i: int| 0 <= i < fewer.len() implies f(#[trigger] fewer[i]) by {
            assert(fewer[i] == standing[i]);
        }
        lemma_all_pass(fewer, f);
        assert(f(standing[standing.len() - 1]));
        assert(fewer.push(standing.last()) =~= standing);
    }
}

/// What a filter does to what stands behind others that it lets pass.
proof fn lemma_filter_behind(
    front: Seq<Standing>,
    rest: Seq<Standing>,
    f: spec_fn(Standing) -> bool,
)
    requires
        forall|i: int| 0 <= i < front.len() ==> f(#[trigger] front[i]),
    ensures
        (front + rest).filter(f) == front + rest.filter(f),
        forall|i: int| 0 <= i < rest.filter(f).len() ==> rest.contains(#[trigger] rest.filter(f)[i]),
{
    Seq::filter_distributes_over_add(front, rest, f);
    lemma_all_pass(front, f);
    assert forall|i: int| 0 <= i < rest.filter(f).len() implies rest.contains(
        #[trigger] rest.filter(f)[i],
    ) by {
        assert(rest.filter(f).contains(rest.filter(f)[i]));
        rest.lemma_filter_contains_rev(f, rest.filter(f)[i]);
    }
}

/// A removal leaves what stands in front as it is, where the guard keeps none of it, and what
/// remains behind it stood behind it before. A chain or a table that is deleted is empty.
proof fn lemma_front_is_spared<E>(
    guard: NftRuleGuardView,
    chains: Seq<Seq<char>>,
    outcomes: Seq<OutcomeView<E>>,
    states: Seq<Seq<Standing>>,
    front: Seq<Standing>,
)
    requires
        removal_runs(removal_over(guard, chains), outcomes, states),
        front.is_prefix_of(states[0]),
        forall|i: int|
            0 <= i < front.len() ==> !keeps(
                guard,
                (#[trigger] front[i]).chain,
                front[i].handle,
            ),
    ensures
        front.is_prefix_of(states.last()),
        forall|i: int|
            front.len() <= i < states.last().len() ==> states[0].skip(
                front.len() as int,
            ).contains(#[trigger] states.last()[i]),
        match removal_after(removal_over(guard, chains), outcomes) {
            RemovalView::DeletingChain { chain, .. } => is_bare(states.last(), chain),
            RemovalView::DeletingTable => states.last().len() == 0,
            _ => true,
        },
    decreases outcomes.len(),
{
    let n = front.len() as int;
    if outcomes.len() == 0 {
        assert forall|i: int| n <= i < states.last().len() implies states[0].skip(n).contains(
            #[trigger] states.last()[i],
        ) by {
            assert(states[0].skip(n)[i - n] == states[0][i]);
        }
    } else {
        lemma_front_is_spared(guard, chains, outcomes.drop_last(), states.drop_last(), front);
        removal_stays_within_guard(guard, chains, outcomes.drop_last());
        assert(states.drop_last()[0] == states[0]);
        let now = removal_after(removal_over(guard, chains), outcomes.drop_last());
        let before = states.drop_last().last();
        let after = states.last();
        let rest = before.skip(n);
        assert(before =~= front + rest);
        match now {
            RemovalView::DeletingRule { rule, .. } => {
                let f = |one: Standing| one.chain != rule.chain || one.handle != rule.handle;
                let k = choose|k: int| 0 <= k < guard.rules.len() && guard.rules[k] == rule;
                assert(guard.rules[k].chain == rule.chain);
                assert(keeps(guard, rule.chain, rule.handle));
                assert forall|i: int| 0 <= i < front.len() implies f(#[trigger] front[i]) by {
                    assert(!keeps(guard, front[i].chain, front[i].handle));
                }
                if succeeded(outcomes.last()) {
                    lemma_filter_behind(front, rest, f);
                    lemma_rest_remains(states[0].skip(n), front, rest, rest.filter(f), before);
                    assert(after == front + rest.filter(f));
                }
            },
            RemovalView::DeletingChain { chain, .. } => {
                let f = |one: Standing| one.chain != chain;
                lemma_all_pass(before, f);
            },
            _ => {},
        }
    }
}

/// What remains of what stood behind others stood there before.
proof fn lemma_rest_remains(
    origin: Seq<Standing>,
    front: Seq<Standing>,
    rest: Seq<Standing>,
    remains: Seq<Standing>,
    before: Seq<Standing>,
)
    requires
        before == front + rest,
        forall|i: int|
            front.len() <= i < before.len() ==> origin.contains(#[trigger] before[i]),
        forall|i: int| 0 <= i < remains.len() ==> rest.contains(#[trigger] remains[i]),
    ensures
        forall|i: int|
            front.len() <= i < (front + remains).len() ==> origin.contains(
                #[trigger] (front + remains)[i],
            ),
{
    assert forall|i: int| front.len() <= i < (front + remains).len() implies origin.contains(
        #[trigger] (front + remains)[i],
    ) by {
        let one = remains[i - front.len()];
        assert((front + remains)[i] == one);
        let k = choose|k: int| 0 <= k < rest.len() && rest[k] == one;
        assert(before[front.len() + k] == one);
    }
}

/// A removal takes away what its guard keeps and nothing else: every other rule still stands
/// after it, and no rule is new.
pub proof fn other_rules_still_stand<E>(
    guard: NftRuleGuardView,
    chains: Seq<Seq<char>>,
    outcomes: Seq<OutcomeView<E>>,
    states: Seq<Seq<Standing>>,
    one: Standing,
)
    requires
        removal_runs(removal_over(guard, chains), outcomes, states),
    ensures
        states.last().contains(one) ==> states[0].contains(one),
        states[0].contains(one) && !keeps(guard, one.chain, one.handle)
            ==> states.last().contains(one),
    decreases outcomes.len(),
{
    if outcomes.len() > 0 {
        other_rules_still_stand(guard, chains, outcomes.drop_last(), states.drop_last(), one);
        removal_stays_within_guard(guard, chains, outcomes.drop_last());
        lemma_front_is_spared(
            guard,
            chains,
            outcomes.drop_last(),
            states.drop_last(),
            Seq::<Standing>::empty(),
        );
        assert(states.drop_last()[0] == states[0]);
        let now = removal_after(removal_over(guard, chains), outcomes.drop_last());
        let before = states.drop_last().last();
        match now {
            RemovalView::DeletingRule { rule, .. } => {
                let f = |one: Standing| one.chain != rule.chain || one.handle != rule.handle;
                let k = choose|k: int| 0 <= k < guard.rules.len() && guard.rules[k] == rule;
                assert(guard.rules[k].chain == rule.chain);
                assert(keeps(guard, rule.chain, rule.handle));
                if succeeded(outcomes.last()) {
                    if states.last().contains(one) {
                        before.lemma_filter_contains_rev(f, one);
                    }
                    if before.contains(one) && f(one) {
                        let i = choose|i: int| 0 <= i < before.len() && before[i] == one;
                        before.lemma_filter_contains(f, i);
                    }
                }
            },
            RemovalView::DeletingChain { chain, .. } => {
                lemma_all_pass(before, |one: Standing| one.chain != chain);
            },
            RemovalView::DeletingTable => {
                assert(before =~= Seq::<Standing>::empty());
            },
            _ => {},
        }
    }
}

/// When the deletions succeed, no rule that the guard keeps is left.
pub proof fn kept_rules_are_gone<E>(
    guard: NftRuleGuardView,
    chains: Seq<Seq<char>>,
    outcomes: Seq<OutcomeView<E>>,
    states: Seq<Seq<Standing>>,
    one: Standing,
)
    requires
        removal_runs(removal_over(guard, chains), outcomes, states),
        !guard.removed,
        outcomes.len() >= guard.rules.len(),
        forall|n: int| 0 <= n < guard.rules.len() ==> succeeded(#[trigger] outcomes[n]),
        keeps(guard, one.chain, one.handle),
    ensures
        !states.last().contains(one),
{
    let i = choose|i: int|
        0 <= i < guard.rules.len() && (#[trigger] guard.rules[i]).chain == one.chain
            && guard.rules[i].handle == one.handle;
    lemma_gone(guard, chains, outcomes, states, i, one);
}

/// A rule that a removal has deleted stays away.
proof fn lemma_gone<E>(
    guard: NftRuleGuardView,
    chains: Seq<Seq<char>>,
    outcomes: Seq<OutcomeView<E>>,
    states: Seq<Seq<Standing>>,
    i: int,
    one: Standing,
)
    requires
        removal_runs(removal_over(guard, chains), outcomes, states),
        !guard.removed,
        0 <= i < guard.rules.len(),
        i < outcomes.len(),
        succeeded(outcomes[i]),
        one.chain == guard.rules[i].chain,
        one.handle == guard.rules[i].handle,
    ensures
        !states.last().contains(one),
    decreases outcomes.len(),
{
    let before = states.drop_last().last();
    let now = removal_after(removal_over(guard, chains), outcomes.drop_last());
    if i < outcomes.len() - 1 {
        assert(outcomes.drop_last()[i] == outcomes[i]);
        lemma_gone(guard, chains, outcomes.drop_last(), states.drop_last(), i, one);
        if states.last().contains(one) {
            match now {
                RemovalView::DeletingRule { rule, .. } => {
                    if succeeded(outcomes.last()) {
                        before.lemma_filter_contains_rev(
                            |one: Standing| one.chain != rule.chain || one.handle != rule.handle,
                            one,
                        );
                    }
                },
                RemovalView::DeletingChain { chain, .. } => {
                    if succeeded(outcomes.last()) {
                        before.lemma_filter_contains_rev(
                            |one: Standing| one.chain != chain,
                            one,
                        );
                    }
                },
                _ => {},
            }
        }
    } else {
        lemma_rules_left(guard, chains, outcomes.drop_last());
        let rule = guard.rules[i];
        assert(guard.rules.skip(i)[0] == rule);
        let f = |one: Standing| one.chain != rule.chain || one.handle != rule.handle;
        assert(states.last() == before.filter(f));
        if states.last().contains(one) {
            let k = choose|k: int| 0 <= k < states.last().len() && states.last()[k] == one;
            before.lemma_filter_pred(f, k);
        }
    }
}

/// None of the rules among the steps stands.
pub open spec fn none_stands(standing: Seq<Standing>, steps: Seq<StepView>) -> bool {
    forall|i: int|
        0 <= i < steps.len() && #[trigger] steps[i] is Rule ==> !stands(standing, steps[i]->Rule_0)
}

/// A setup whose rules were all absent keeps nothing that stood before.
proof fn lemma_keeps_only_new<E>(
    setup: SetupView,
    outcomes: Seq<OutcomeView<E>>,
    states: Seq<Seq<Standing>>,
    guard: NftRuleGuardView,
    at: int,
)
    requires
        begins(setup),
        setup.guard == NftRuleGuardView::empty(),
        is_sound(steps_left(setup.stage)),
        setup_runs(setup, outcomes, states),
        none_stands(states[0], steps_left(setup.stage)),
        setup_after(setup, outcomes) == ProgressView::<E>::Done(guard),
        0 <= at < states[0].len(),
    ensures
        !keeps(guard, states[0][at].chain, states[0][at].handle),
{
    let one = states[0][at];
    let last = states.last();
    let steps = steps_left(setup.stage);
    done_setup_has_its_rules(setup, outcomes, states, guard);
    setup_removes_nothing(setup, outcomes, states);
    assert(guard.rules =~= kept_for(last, steps));
    if keeps(guard, one.chain, one.handle) {
        let k = choose|k: int|
            0 <= k < guard.rules.len() && (#[trigger] guard.rules[k]).chain == one.chain
                && guard.rules[k].handle == one.handle;
        let (j, i) = lemma_kept_source(last, steps, k);
        let rule = steps[j]->Rule_0;
        if i < states[0].len() {
            assert(last[i] == states[0][i]);
            let found = lemma_handle_listed(states[0], rule, i);
            assert(stands(states[0], rule));
        } else {
            let from = lemma_new_rules(setup, outcomes, states, i);
            assert(is_standing(states[0], one.chain, one.handle));
        }
    }
}

/// What is new after a setup that is done, its guard keeps.
proof fn lemma_new_is_kept<E>(
    setup: SetupView,
    outcomes: Seq<OutcomeView<E>>,
    states: Seq<Seq<Standing>>,
    guard: NftRuleGuardView,
    at: int,
)
    requires
        begins(setup),
        setup.guard == NftRuleGuardView::empty(),
        is_sound(steps_left(setup.stage)),
        setup_runs(setup, outcomes, states),
        setup_after(setup, outcomes) == ProgressView::<E>::Done(guard),
        states[0].len() <= at < states.last().len(),
    ensures
        keeps(guard, states.last()[at].chain, states.last()[at].handle),
{
    let last = states.last();
    let steps = steps_left(setup.stage);
    done_setup_has_its_rules(setup, outcomes, states, guard);
    assert(guard.rules =~= kept_for(last, steps));
    let j = lemma_new_rules(setup, outcomes, states, at);
    shown_rule_is_found(steps[j]->Rule_0, last[at].text);
    let k = lemma_kept_member(last, steps, j, at);
    assert(guard.rules[k].chain == last[at].chain);
}

/// A tunnel leaves no trace: where its rules were absent before the setup, and the setup is done,
/// a removal whose deletions succeed leaves standing just what stood before, in the same order.
pub proof fn setup_and_removal_leave_no_trace<E>(
    setup: SetupView,
    outcomes: Seq<OutcomeView<E>>,
    states: Seq<Seq<Standing>>,
    guard: NftRuleGuardView,
    removal_outcomes: Seq<OutcomeView<E>>,
    removal_states: Seq<Seq<Standing>>,
)
    requires
        begins(setup),
        setup.guard == NftRuleGuardView::empty(),
        is_sound(steps_left(setup.stage)),
        setup_runs(setup, outcomes, states),
        none_stands(states[0], steps_left(setup.stage)),
        setup_after(setup, outcomes) == ProgressView::<E>::Done(guard),
        removal_runs(removal_of(guard), removal_outcomes, removal_states),
        removal_states[0] == states.last(),
        removal_outcomes.len() >= guard.rules.len(),
        forall|n: int| 0 <= n < guard.rules.len() ==> succeeded(#[trigger] removal_outcomes[n]),
    ensures
        removal_states.last() == states[0],
{
    let front = states[0];
    let n = front.len() as int;
    let whole = states.last();
    let left = removal_states.last();
    let chains = visited_chains(guard.rules);
    setup_removes_nothing(setup, outcomes, states);
    done_setup_has_its_rules(setup, outcomes, states, guard);
    assert forall|i: int| 0 <= i < front.len() implies !keeps(
        guard,
        (#[trigger] front[i]).chain,
        front[i].handle,
    ) by {
        lemma_keeps_only_new(setup, outcomes, states, guard, i);
    }
    lemma_front_is_spared(guard, chains, removal_outcomes, removal_states, front);
    if left.len() > n {
        let one = left[n];
        assert(whole.skip(n).contains(one));
        let k = choose|k: int| 0 <= k < whole.skip(n).len() && whole.skip(n)[k] == one;
        assert(whole[n + k] == one);
        lemma_new_is_kept(setup, outcomes, states, guard, n + k);
        kept_rules_are_gone(guard, chains, removal_outcomes, removal_states, one);
        assert(left.contains(one));
    }
    assert(left =~= front);
}

} // verus!
