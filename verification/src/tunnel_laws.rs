//! What the setup of a tunnel comes to, from the arguments that it is asked for with.

use vstd::prelude::*;
use crate::command::OutcomeView;
use crate::guard::{NftRuleGuardView, NftRuleView};
use crate::interface::{answered_interface, Probe};
use crate::laws::{setup_after, steps_left};
use crate::number::hexadecimal;
use crate::rule::{is_address, is_clear, Family, TunnelRuleView};
use crate::ruleset::{
    begins, done_setup_has_its_rules, handles_for, is_search, is_sound, kept_for, kept_for_step,
    lemma_handle_source, lemma_run_splits, plan_is_sound, setup_runs, stands, Standing,
};
use crate::setup::{
    beginning, client_setup, first_stage, mark_setup, mark_steps, plan, registered, server_setup,
    ProgressView, SetupView, StageView, StepView, TargetView,
};

verus! {

// ---- which interface a setup is for ----

/// The source that a search asks when so many have named no interface.
pub open spec fn source(n: int) -> Probe {
    if n == 0 {
        Probe::RouteTable
    } else if n == 1 {
        Probe::DefaultRoute
    } else {
        Probe::DeviceTable
    }
}

/// The interface that a setup is for, from the one that it was asked for with and from what the
/// sources answered. A name is taken as it is, but `-` and the empty name stand for any interface,
/// and nothing is asked. Without one, the routes of the kernel, the default route and the list of
/// devices are asked in turn, up to the first that names an interface; if none does, any will do.
pub open spec fn is_sought<E>(
    given: Option<Seq<char>>,
    search: Seq<OutcomeView<E>>,
    iface: Option<Seq<char>>,
) -> bool {
    match given {
        Some(name) => search.len() == 0 && iface == (if name == "-"@ || name.len() == 0 {
            None
        } else {
            Some(name)
        }),
        None => {
            &&& 1 <= search.len() <= 3
            &&& forall|i: int|
                0 <= i < search.len() - 1 ==> answered_interface(
                    source(i),
                    #[trigger] search[i],
                ) is None
            &&& iface == answered_interface(source(search.len() - 1), search.last())
            &&& iface is None ==> search.len() == 3
        },
    }
}

/// A search that goes on has asked the sources in turn, and none has named an interface.
proof fn lemma_still_searching<E>(
    setup: SetupView,
    target: TargetView,
    search: Seq<OutcomeView<E>>,
    now: SetupView,
)
    requires
        setup.stage == (StageView::Detecting { probe: Probe::RouteTable, target }),
        is_search(setup, search),
        setup_after(setup, search) == ProgressView::<E>::Continue(now),
        now.stage is Detecting,
    ensures
        search.len() <= 2,
        now == setup.at(StageView::Detecting { probe: source(search.len() as int), target }),
        forall|i: int|
            0 <= i < search.len() ==> answered_interface(source(i), #[trigger] search[i]) is None,
    decreases search.len(),
{
    if search.len() > 0 {
        let before = setup_after(setup, search.drop_last())->Continue_0;
        lemma_still_searching(setup, target, search.drop_last(), before);
        assert forall|i: int| 0 <= i < search.len() implies answered_interface(
            source(i),
            #[trigger] search[i],
        ) is None by {
            if i < search.len() - 1 {
                assert(search.drop_last()[i] == search[i]);
            } else {
                assert(search[i] == search.last());
            }
        }
    }
}

/// The stage with which the setup of a target begins its steps.
proof fn lemma_search_ends<E>(
    setup: SetupView,
    target: TargetView,
    given: Option<Seq<char>>,
    search: Seq<OutcomeView<E>>,
    begun: SetupView,
) -> (iface: Option<Seq<char>>)
    requires
        setup.stage == first_stage(target, given),
        is_search(setup, search),
        setup_after(setup, search) == ProgressView::<E>::Continue(begun),
        begun.stage is Installing,
    ensures
        is_sought(given, search, iface),
        begun == setup.at(beginning(plan(target, iface))),
        steps_left(begun.stage) == plan(target, iface),
{
    if search.len() == 0 {
        let name = given->0;
        let iface = if name == "-"@ || name.len() == 0 {
            None
        } else {
            Some(name)
        };
        let steps = plan(target, iface);
        assert(steps_left(beginning(steps)) =~= steps);
        iface
    } else {
        let before = setup_after(setup, search.drop_last())->Continue_0;
        lemma_begins_detecting(setup, search);
        lemma_still_searching(setup, target, search.drop_last(), before);
        assert forall|i: int| 0 <= i < search.len() - 1 implies answered_interface(
            source(i),
            #[trigger] search[i],
        ) is None by {
            assert(search.drop_last()[i] == search[i]);
        }
        let iface = answered_interface(source(search.len() - 1), search.last());
        let steps = plan(target, iface);
        assert(steps_left(beginning(steps)) =~= steps);
        iface
    }
}

/// A setup that searches at all begins with the search.
proof fn lemma_begins_detecting<E>(setup: SetupView, search: Seq<OutcomeView<E>>)
    requires
        search.len() > 0,
        is_search(setup, search),
    ensures
        setup.stage is Detecting,
    decreases search.len(),
{
    if search.len() > 1 {
        lemma_begins_detecting(setup, search.drop_last());
    } else {
        assert(search.drop_last().len() == 0);
    }
}

// ---- which rules a setup is for ----

/// The rule is one that the setup of a client is for: packets of the tunnel leave masqueraded, and
/// carry the mark if there is one.
pub open spec fn client_needs(
    tun: Seq<char>,
    iface: Option<Seq<char>>,
    mark: Option<u32>,
    rule: TunnelRuleView,
) -> bool {
    match rule {
        TunnelRuleView::Masquerade { tun: from, iface: through } => from == tun && through == iface,
        TunnelRuleView::Forward { .. } => false,
        TunnelRuleView::Mark { tun: from, mark: value } => from == tun && mark == Some(value),
    }
}

/// The rule is one that the setup of a server is for: packets to the port go to the peer of each
/// family, and packets of the tunnel carry the mark if there is one.
pub open spec fn server_needs(
    port: u16,
    tun: Seq<char>,
    peer: Seq<char>,
    peer6: Option<Seq<char>>,
    iface: Option<Seq<char>>,
    mark: Option<u32>,
    rule: TunnelRuleView,
) -> bool {
    match rule {
        TunnelRuleView::Masquerade { .. } => false,
        TunnelRuleView::Forward { iface: through, port: to, family, peer: address } => {
            &&& through == iface
            &&& to == port
            &&& match family {
                Family::V4 => address == peer,
                Family::V6 => peer6 == Some(address),
            }
        },
        TunnelRuleView::Mark { tun: from, mark: value } => from == tun && mark == Some(value),
    }
}

/// The step at index `i` comes after the table and after its chain were made sure of.
pub open spec fn is_prepared(steps: Seq<StepView>, i: int) -> bool {
    exists|j: int, k: int|
        0 <= j < k < i && #[trigger] steps[j] is Table && #[trigger] steps[k] is Chain
            && steps[k]->name == steps[i]->Rule_0.chain()
}

/// Every rule among the steps comes after the table and its chain, and none comes twice.
pub open spec fn is_in_order(steps: Seq<StepView>) -> bool {
    &&& forall|i: int| 0 <= i < steps.len() && #[trigger] steps[i] is Rule ==> is_prepared(steps, i)
    &&& forall|i: int, j: int|
        0 <= i < j < steps.len() && #[trigger] steps[i] is Rule ==> steps[i] != #[trigger] steps[j]
}

/// Every chain among the steps is hooked in as its name says.
pub open spec fn hooks_its_chains(steps: Seq<StepView>) -> bool {
    forall|i: int|
        0 <= i < steps.len() && #[trigger] steps[i] is Chain ==> {
            ||| steps[i]->name == "postrouting"@ && steps[i]->definition
                == "{ type nat hook postrouting priority srcnat; policy accept; }"@
            ||| steps[i]->name == "prerouting"@ && steps[i]->definition
                == "{ type nat hook prerouting priority dstnat; policy accept; }"@
            ||| steps[i]->name == "prerouting_mangle"@ && steps[i]->definition
                == "{ type filter hook prerouting priority mangle; policy accept; }"@
        }
}

/// To every chain among the steps belongs a rule behind it.
pub open spec fn makes_no_idle_chain(steps: Seq<StepView>) -> bool {
    forall|i: int|
        0 <= i < steps.len() && #[trigger] steps[i] is Chain ==> exists|j: int|
            i < j < steps.len() && #[trigger] steps[j] is Rule && steps[j]->Rule_0.chain()
                == steps[i]->name
}

/// Whatever interface the setup of a client is asked for with, and however it is found, the steps
/// that are left once it is known hold exactly the rules that the client needs, each once and
/// after its chain: the rule for masquerading, and the rule for the mark exactly if there is one.
pub proof fn client_setup_is_for_its_rules<E>(
    tun: Seq<char>,
    given: Option<Seq<char>>,
    mark: Option<u32>,
    search: Seq<OutcomeView<E>>,
    begun: SetupView,
) -> (iface: Option<Seq<char>>)
    requires
        is_search(client_setup(tun, given, mark), search),
        setup_after(client_setup(tun, given, mark), search) == ProgressView::<E>::Continue(begun),
        begun.stage is Installing,
    ensures
        is_sought(given, search, iface),
        begins(begun),
        begun.guard.rules.len() == 0 && !begun.guard.removed && begun.undoes && begun.made.len()
            == 0,
        forall|rule: TunnelRuleView|
            #[trigger] steps_left(begun.stage).contains(StepView::Rule(rule)) <==> client_needs(
                tun,
                iface,
                mark,
                rule,
            ),
        is_in_order(steps_left(begun.stage)),
        hooks_its_chains(steps_left(begun.stage)),
        makes_no_idle_chain(steps_left(begun.stage)),
{
    let target = TargetView::Client { tun, mark };
    let iface = lemma_search_ends(client_setup(tun, given, mark), target, given, search, begun);
    lemma_client_steps(tun, iface, mark);
    iface
}

/// What the steps for a client are for.
proof fn lemma_client_steps(tun: Seq<char>, iface: Option<Seq<char>>, mark: Option<u32>)
    ensures
        ({
            let steps = plan((TargetView::Client { tun, mark }), iface);
            &&& forall|rule: TunnelRuleView|
                #[trigger] steps.contains(StepView::Rule(rule)) <==> client_needs(
                    tun,
                    iface,
                    mark,
                    rule,
                )
            &&& is_in_order(steps)
            &&& hooks_its_chains(steps)
            &&& makes_no_idle_chain(steps)
        }),
{
    let steps = plan((TargetView::Client { tun, mark }), iface);
    let masquerade = TunnelRuleView::Masquerade { tun, iface };
    assert(steps[0] is Table && steps[1] is Chain && steps[2] == StepView::Rule(masquerade));
    assert(is_prepared(steps, 2));
    if mark is Some {
        let marking = TunnelRuleView::Mark { tun, mark: mark->0 };
        assert(steps[3] is Table && steps[4] is Chain && steps[5] == StepView::Rule(marking));
        assert(is_prepared(steps, 5));
    }
    assert forall|rule: TunnelRuleView|
        #[trigger] steps.contains(StepView::Rule(rule)) <==> client_needs(
            tun,
            iface,
            mark,
            rule,
        ) by {
        if client_needs(tun, iface, mark, rule) {
            if rule is Masquerade {
                assert(steps[2] == StepView::Rule(rule));
            } else {
                assert(steps[5] == StepView::Rule(rule));
            }
        }
    }
}

/// Whatever interface the setup of a server is asked for with, and however it is found, the steps
/// that are left once it is known hold exactly the rules that the server needs, each once and
/// after its chain: those that forward to the peers, and the rule for the mark exactly if there is
/// one.
pub proof fn server_setup_is_for_its_rules<E>(
    port: u16,
    tun: Seq<char>,
    peer: Seq<char>,
    peer6: Option<Seq<char>>,
    given: Option<Seq<char>>,
    mark: Option<u32>,
    search: Seq<OutcomeView<E>>,
    begun: SetupView,
) -> (iface: Option<Seq<char>>)
    requires
        is_search(server_setup(port, tun, peer, peer6, given, mark), search),
        setup_after(server_setup(port, tun, peer, peer6, given, mark), search) == ProgressView::<
            E,
        >::Continue(begun),
        begun.stage is Installing,
    ensures
        is_sought(given, search, iface),
        begins(begun),
        begun.guard.rules.len() == 0 && !begun.guard.removed && begun.undoes && begun.made.len()
            == 0,
        forall|rule: TunnelRuleView|
            #[trigger] steps_left(begun.stage).contains(StepView::Rule(rule)) <==> server_needs(
                port,
                tun,
                peer,
                peer6,
                iface,
                mark,
                rule,
            ),
        is_in_order(steps_left(begun.stage)),
        hooks_its_chains(steps_left(begun.stage)),
        makes_no_idle_chain(steps_left(begun.stage)),
{
    let target = TargetView::Server { port, tun, peer, peer6, mark };
    let setup = server_setup(port, tun, peer, peer6, given, mark);
    let iface = lemma_search_ends(setup, target, given, search, begun);
    lemma_server_steps(port, tun, peer, peer6, iface, mark);
    iface
}

/// What the steps for a server are for.
proof fn lemma_server_steps(
    port: u16,
    tun: Seq<char>,
    peer: Seq<char>,
    peer6: Option<Seq<char>>,
    iface: Option<Seq<char>>,
    mark: Option<u32>,
)
    ensures
        ({
            let steps = plan((TargetView::Server { port, tun, peer, peer6, mark }), iface);
            &&& forall|rule: TunnelRuleView|
                #[trigger] steps.contains(StepView::Rule(rule)) <==> server_needs(
                    port,
                    tun,
                    peer,
                    peer6,
                    iface,
                    mark,
                    rule,
                )
            &&& is_in_order(steps)
            &&& hooks_its_chains(steps)
            &&& makes_no_idle_chain(steps)
        }),
{
    let steps = plan((TargetView::Server { port, tun, peer, peer6, mark }), iface);
    let forward = TunnelRuleView::Forward { iface, port, family: Family::V4, peer };
    assert(steps[0] is Table && steps[1] is Chain && steps[2] == StepView::Rule(forward));
    assert(is_prepared(steps, 2));
    let base: int = if peer6 is Some {
        4
    } else {
        3
    };
    if peer6 is Some {
        let other = TunnelRuleView::Forward { iface, port, family: Family::V6, peer: peer6->0 };
        assert(steps[3] == StepView::Rule(other));
        assert(is_prepared(steps, 3));
    }
    if mark is Some {
        let marking = TunnelRuleView::Mark { tun, mark: mark->0 };
        assert(steps[base] is Table && steps[base + 1] is Chain && steps[base + 2]
            == StepView::Rule(marking));
        assert(is_prepared(steps, base + 2));
    }
    assert forall|rule: TunnelRuleView|
        #[trigger] steps.contains(StepView::Rule(rule)) <==> server_needs(
            port,
            tun,
            peer,
            peer6,
            iface,
            mark,
            rule,
        ) by {
        if server_needs(port, tun, peer, peer6, iface, mark, rule) {
            match rule {
                TunnelRuleView::Forward { family: Family::V4, .. } => {
                    assert(steps[2] == StepView::Rule(rule));
                },
                TunnelRuleView::Forward { .. } => {
                    assert(steps[3] == StepView::Rule(rule));
                },
                _ => {
                    assert(steps[base + 2] == StepView::Rule(rule));
                },
            }
        }
    }
}

/// The setup of a mark keeps the guard as it is and has the rule for the mark as its only rule.
pub proof fn mark_setup_is_for_its_rule(guard: NftRuleGuardView, tun: Seq<char>, mark: u32)
    ensures
        begins(mark_setup(guard, tun, mark)),
        mark_setup(guard, tun, mark).guard == guard,
        !mark_setup(guard, tun, mark).undoes,
        forall|rule: TunnelRuleView|
            #[trigger] steps_left(mark_setup(guard, tun, mark).stage).contains(StepView::Rule(rule))
                <==> rule == (TunnelRuleView::Mark { tun, mark }),
        is_in_order(steps_left(mark_setup(guard, tun, mark).stage)),
        hooks_its_chains(steps_left(mark_setup(guard, tun, mark).stage)),
        makes_no_idle_chain(steps_left(mark_setup(guard, tun, mark).stage)),
{
    let marking = TunnelRuleView::Mark { tun, mark };
    let steps = mark_steps(tun, mark);
    assert(steps_left(mark_setup(guard, tun, mark).stage) =~= steps);
    assert(steps[0] is Table && steps[1] is Chain && steps[2] == StepView::Rule(marking));
    assert(is_prepared(steps, 2));
}

// ---- what stands, and what the guard keeps, when a setup is done ----

/// The guard keeps the rule for something that stands and is taken for it.
pub open spec fn accounts_for(
    standing: Seq<Standing>,
    rule: TunnelRuleView,
    kept: NftRuleView,
) -> bool {
    &&& kept.chain == rule.chain()
    &&& kept.description == rule.text()
    &&& handles_for(standing, rule).contains(kept.handle)
}

/// What is kept comes from a rule among the steps.
pub open spec fn is_accounted_for(
    standing: Seq<Standing>,
    steps: Seq<StepView>,
    kept: NftRuleView,
) -> bool {
    exists|rule: TunnelRuleView|
        steps.contains(StepView::Rule(rule)) && #[trigger] accounts_for(standing, rule, kept)
}

/// Something stands in the chain of the rule and is taken for it, and the guard keeps it under its
/// handle.
pub open spec fn is_kept(
    guard: NftRuleGuardView,
    standing: Seq<Standing>,
    rule: TunnelRuleView,
) -> bool {
    exists|k: int, i: int|
        {
            &&& 0 <= k < guard.rules.len() && 0 <= i < standing.len()
            &&& (#[trigger] guard.rules[k]).handle == (#[trigger] standing[i]).handle
            &&& guard.rules[k].chain == rule.chain() && guard.rules[k].description == rule.text()
            &&& standing[i].chain == rule.chain() && rule.matches(standing[i].text)
        }
}

/// What is kept for one step.
proof fn lemma_kept_for_step(standing: Seq<Standing>, step: StepView, kept: NftRuleView)
    ensures
        kept_for_step(standing, step).contains(kept) <==> step is Rule && accounts_for(
            standing,
            step->Rule_0,
            kept,
        ),
{
    if step is Rule {
        let rule = step->Rule_0;
        let handles = handles_for(standing, rule);
        let all = registered(rule, handles);
        if all.contains(kept) {
            let i = choose|i: int| 0 <= i < all.len() && all[i] == kept;
            assert(handles[i] == kept.handle);
        }
        if accounts_for(standing, rule, kept) {
            let i = choose|i: int| 0 <= i < handles.len() && handles[i] == kept.handle;
            assert(all[i] == kept);
        }
    }
}

/// What is kept for the steps.
proof fn lemma_kept_for_steps(standing: Seq<Standing>, steps: Seq<StepView>, kept: NftRuleView)
    ensures
        kept_for(standing, steps).contains(kept) <==> is_accounted_for(standing, steps, kept),
    decreases steps.len(),
{
    if steps.len() > 0 {
        let fewer = steps.drop_last();
        let before = kept_for(standing, fewer);
        let last = kept_for_step(standing, steps.last());
        let all = kept_for(standing, steps);
        lemma_kept_for_steps(standing, fewer, kept);
        lemma_kept_for_step(standing, steps.last(), kept);
        if all.contains(kept) {
            let i = choose|i: int| 0 <= i < all.len() && all[i] == kept;
            if i < before.len() {
                assert(before[i] == kept);
                let rule = choose|rule: TunnelRuleView|
                    fewer.contains(StepView::Rule(rule)) && #[trigger] accounts_for(
                        standing,
                        rule,
                        kept,
                    );
                let j = choose|j: int| 0 <= j < fewer.len() && fewer[j] == StepView::Rule(rule);
                assert(steps[j] == StepView::Rule(rule));
            } else {
                assert(last[i - before.len()] == kept);
                let rule = steps.last()->Rule_0;
                assert(steps[steps.len() - 1] == StepView::Rule(rule));
            }
        }
        if is_accounted_for(standing, steps, kept) {
            let rule = choose|rule: TunnelRuleView|
                steps.contains(StepView::Rule(rule)) && #[trigger] accounts_for(
                    standing,
                    rule,
                    kept,
                );
            let j = choose|j: int| 0 <= j < steps.len() && steps[j] == StepView::Rule(rule);
            if j < fewer.len() {
                assert(fewer[j] == StepView::Rule(rule));
                let i = choose|i: int| 0 <= i < before.len() && before[i] == kept;
                assert(all[i] == kept);
            } else {
                let i = choose|i: int| 0 <= i < last.len() && last[i] == kept;
                assert(all[before.len() + i] == kept);
            }
        }
    }
}

/// What a setup that keeps nothing at first has come to when it is done.
proof fn lemma_done<E>(
    setup: SetupView,
    search: Seq<OutcomeView<E>>,
    begun: SetupView,
    rest: Seq<OutcomeView<E>>,
    states: Seq<Seq<Standing>>,
    guard: NftRuleGuardView,
)
    requires
        setup_after(setup, search) == ProgressView::<E>::Continue(begun),
        begins(begun),
        begun.guard.rules.len() == 0,
        is_sound(steps_left(begun.stage)),
        setup_runs(setup, search + rest, states),
        setup_after(setup, search + rest) == ProgressView::<E>::Done(guard),
    ensures
        guard.removed == begun.guard.removed,
        forall|rule: TunnelRuleView|
            #[trigger] steps_left(begun.stage).contains(StepView::Rule(rule)) ==> is_kept(
                guard,
                states.last(),
                rule,
            ),
        forall|kept: NftRuleView| #[trigger]
            guard.rules.contains(kept) <==> is_accounted_for(
                states.last(),
                steps_left(begun.stage),
                kept,
            ),
{
    let steps = steps_left(begun.stage);
    let n = search.len() as int;
    lemma_run_splits(setup, search, rest, states, begun);
    assert(states.skip(n).last() == states.last());
    done_setup_has_its_rules(begun, rest, states.skip(n), guard);
    assert(guard.rules =~= kept_for(states.last(), steps));
    assert forall|kept: NftRuleView| #[trigger]
        guard.rules.contains(kept) <==> is_accounted_for(states.last(), steps, kept) by {
        lemma_kept_for_steps(states.last(), steps, kept);
    }
    assert forall|rule: TunnelRuleView| #[trigger]
        steps.contains(StepView::Rule(rule)) implies is_kept(guard, states.last(), rule) by {
        let j = choose|j: int| 0 <= j < steps.len() && steps[j] == StepView::Rule(rule);
        assert(steps[j] is Rule);
        assert(stands(states.last(), rule));
        let handles = handles_for(states.last(), rule);
        let i = lemma_handle_source(states.last(), rule, 0);
        let kept = NftRuleView {
            chain: rule.chain(),
            handle: handles[0],
            description: rule.text(),
        };
        assert(accounts_for(states.last(), rule, kept));
        assert(is_accounted_for(states.last(), steps, kept));
        assert(guard.rules.contains(kept));
        let k = choose|k: int| 0 <= k < guard.rules.len() && guard.rules[k] == kept;
        assert(guard.rules[k].handle == states.last()[i].handle);
    }
}

/// What the setup of a target has come to when it is done.
proof fn lemma_done_target<E>(
    setup: SetupView,
    target: TargetView,
    given: Option<Seq<char>>,
    search: Seq<OutcomeView<E>>,
    begun: SetupView,
    rest: Seq<OutcomeView<E>>,
    states: Seq<Seq<Standing>>,
    guard: NftRuleGuardView,
) -> (iface: Option<Seq<char>>)
    requires
        setup.stage == first_stage(target, given),
        setup.guard.rules.len() == 0 && !setup.guard.removed,
        is_search(setup, search),
        setup_after(setup, search) == ProgressView::<E>::Continue(begun),
        begun.stage is Installing,
        match target {
            TargetView::Client { tun, .. } => is_clear(tun),
            TargetView::Server { tun, peer, peer6, .. } => {
                &&& is_clear(tun)
                &&& is_address(peer)
                &&& peer6 is Some ==> is_address(peer6->0)
            },
        },
        forall|name: Seq<char>| #[trigger] is_sought(given, search, Some(name)) ==> is_clear(name),
        setup_runs(setup, search + rest, states),
        setup_after(setup, search + rest) == ProgressView::<E>::Done(guard),
    ensures
        is_sought(given, search, iface),
        !guard.removed,
        forall|rule: TunnelRuleView|
            #[trigger] plan(target, iface).contains(StepView::Rule(rule)) ==> is_kept(
                guard,
                states.last(),
                rule,
            ),
        forall|kept: NftRuleView| #[trigger]
            guard.rules.contains(kept) <==> is_accounted_for(
                states.last(),
                plan(target, iface),
                kept,
            ),
{
    let iface = lemma_search_ends(setup, target, given, search, begun);
    if iface is Some {
        assert(is_sought(given, search, Some(iface->0)));
    }
    plan_is_sound(target, iface);
    lemma_done(setup, search, begun, rest, states, guard);
    iface
}

/// What the guard of a client keeps.
proof fn lemma_client_keeps(
    tun: Seq<char>,
    iface: Option<Seq<char>>,
    mark: Option<u32>,
    standing: Seq<Standing>,
    guard: NftRuleGuardView,
)
    requires
        ({
            let steps = plan((TargetView::Client { tun, mark }), iface);
            &&& forall|rule: TunnelRuleView|
                #[trigger] steps.contains(StepView::Rule(rule)) ==> is_kept(guard, standing, rule)
            &&& forall|kept: NftRuleView| #[trigger]
                guard.rules.contains(kept) <==> is_accounted_for(standing, steps, kept)
        }),
    ensures
        forall|rule: TunnelRuleView| #[trigger]
            client_needs(tun, iface, mark, rule) ==> is_kept(guard, standing, rule),
        forall|k: int| #![trigger guard.rules[k]]
            0 <= k < guard.rules.len() ==> client_accounts_for(
                tun,
                iface,
                mark,
                standing,
                guard.rules[k],
            ),
        match mark {
            Some(value) => keeps_mark(guard, tun, value),
            None => forall|k: int|
                0 <= k < guard.rules.len() ==> (#[trigger] guard.rules[k]).chain
                    != "prerouting_mangle"@,
        },
{
    let steps = plan((TargetView::Client { tun, mark }), iface);
    lemma_client_steps(tun, iface, mark);
    lemma_chain_names();
    assert forall|rule: TunnelRuleView| #[trigger]
        client_needs(tun, iface, mark, rule) implies is_kept(guard, standing, rule) by {
        assert(steps.contains(StepView::Rule(rule)));
    }
    assert forall|k: int| #![trigger guard.rules[k]] 0 <= k < guard.rules.len() implies
        client_accounts_for(tun, iface, mark, standing, guard.rules[k]) by {
        assert(guard.rules.contains(guard.rules[k]));
        let rule = choose|rule: TunnelRuleView|
            steps.contains(StepView::Rule(rule)) && #[trigger] accounts_for(
                standing,
                rule,
                guard.rules[k],
            );
        assert(client_needs(tun, iface, mark, rule));
    }
    if mark is Some {
        let rule = TunnelRuleView::Mark { tun, mark: mark->0 };
        assert(client_needs(tun, iface, mark, rule));
        lemma_mark_is_kept(guard, standing, tun, mark->0);
    }
}

/// How a guard keeps a mark.
proof fn lemma_mark_is_kept(
    guard: NftRuleGuardView,
    standing: Seq<Standing>,
    tun: Seq<char>,
    mark: u32,
)
    requires
        is_kept(guard, standing, (TunnelRuleView::Mark { tun, mark })),
    ensures
        keeps_mark(guard, tun, mark),
{
    let rule = TunnelRuleView::Mark { tun, mark };
    let (k, i) = choose|k: int, i: int|
        {
            &&& 0 <= k < guard.rules.len() && 0 <= i < standing.len()
            &&& (#[trigger] guard.rules[k]).handle == (#[trigger] standing[i]).handle
            &&& guard.rules[k].chain == rule.chain() && guard.rules[k].description == rule.text()
            &&& standing[i].chain == rule.chain() && rule.matches(standing[i].text)
        };
    assert(guard.rules[k].description =~= "iifname \""@ + tun + "\" meta mark set 0x"@
        + hexadecimal(mark as nat));
}

/// What the guard of a server keeps.
proof fn lemma_server_keeps(
    port: u16,
    tun: Seq<char>,
    peer: Seq<char>,
    peer6: Option<Seq<char>>,
    iface: Option<Seq<char>>,
    mark: Option<u32>,
    standing: Seq<Standing>,
    guard: NftRuleGuardView,
)
    requires
        ({
            let steps = plan((TargetView::Server { port, tun, peer, peer6, mark }), iface);
            &&& forall|rule: TunnelRuleView|
                #[trigger] steps.contains(StepView::Rule(rule)) ==> is_kept(guard, standing, rule)
            &&& forall|kept: NftRuleView| #[trigger]
                guard.rules.contains(kept) <==> is_accounted_for(standing, steps, kept)
        }),
    ensures
        forall|rule: TunnelRuleView| #[trigger]
            server_needs(port, tun, peer, peer6, iface, mark, rule) ==> is_kept(
                guard,
                standing,
                rule,
            ),
        forall|k: int| #![trigger guard.rules[k]]
            0 <= k < guard.rules.len() ==> server_accounts_for(
                port,
                tun,
                peer,
                peer6,
                iface,
                mark,
                standing,
                guard.rules[k],
            ),
        match mark {
            Some(value) => keeps_mark(guard, tun, value),
            None => forall|k: int|
                0 <= k < guard.rules.len() ==> (#[trigger] guard.rules[k]).chain
                    != "prerouting_mangle"@,
        },
{
    let steps = plan((TargetView::Server { port, tun, peer, peer6, mark }), iface);
    lemma_server_steps(port, tun, peer, peer6, iface, mark);
    lemma_chain_names();
    assert forall|rule: TunnelRuleView| #[trigger]
        server_needs(port, tun, peer, peer6, iface, mark, rule) implies is_kept(
        guard,
        standing,
        rule,
    ) by {
        assert(steps.contains(StepView::Rule(rule)));
    }
    assert forall|k: int| #![trigger guard.rules[k]] 0 <= k < guard.rules.len() implies
        server_accounts_for(port, tun, peer, peer6, iface, mark, standing, guard.rules[k]) by {
        assert(guard.rules.contains(guard.rules[k]));
        let rule = choose|rule: TunnelRuleView|
            steps.contains(StepView::Rule(rule)) && #[trigger] accounts_for(
                standing,
                rule,
                guard.rules[k],
            );
        assert(server_needs(port, tun, peer, peer6, iface, mark, rule));
    }
    if mark is Some {
        let rule = TunnelRuleView::Mark { tun, mark: mark->0 };
        assert(server_needs(port, tun, peer, peer6, iface, mark, rule));
        lemma_mark_is_kept(guard, standing, tun, mark->0);
    }
}

/// What is kept comes from a rule that the client needs.
pub open spec fn client_accounts_for(
    tun: Seq<char>,
    iface: Option<Seq<char>>,
    mark: Option<u32>,
    standing: Seq<Standing>,
    kept: NftRuleView,
) -> bool {
    exists|rule: TunnelRuleView| #[trigger]
        client_needs(tun, iface, mark, rule) && accounts_for(standing, rule, kept)
}

/// What is kept comes from a rule that the server needs.
pub open spec fn server_accounts_for(
    port: u16,
    tun: Seq<char>,
    peer: Seq<char>,
    peer6: Option<Seq<char>>,
    iface: Option<Seq<char>>,
    mark: Option<u32>,
    standing: Seq<Standing>,
    kept: NftRuleView,
) -> bool {
    exists|rule: TunnelRuleView| #[trigger]
        server_needs(port, tun, peer, peer6, iface, mark, rule) && accounts_for(
            standing,
            rule,
            kept,
        )
}

/// The guard keeps a rule of `prerouting_mangle` that sets the mark for the tunnel.
pub open spec fn keeps_mark(guard: NftRuleGuardView, tun: Seq<char>, mark: u32) -> bool {
    exists|k: int|
        0 <= k < guard.rules.len() && (#[trigger] guard.rules[k]).chain == "prerouting_mangle"@
            && guard.rules[k].description == "iifname \""@ + tun + "\" meta mark set 0x"@
            + hexadecimal(mark as nat)
}

/// When the setup of a client is done, whatever interface it was asked for with, every rule that
/// the client needs stands and the guard keeps it, and the guard keeps nothing else. With a mark, a
/// rule in `prerouting_mangle` sets that mark for that tunnel; without one, no rule of that chain
/// is kept. The law is on names that can be told from what follows them.
pub proof fn done_client_has_its_rules<E>(
    tun: Seq<char>,
    given: Option<Seq<char>>,
    mark: Option<u32>,
    search: Seq<OutcomeView<E>>,
    begun: SetupView,
    rest: Seq<OutcomeView<E>>,
    states: Seq<Seq<Standing>>,
    guard: NftRuleGuardView,
) -> (iface: Option<Seq<char>>)
    requires
        is_search(client_setup(tun, given, mark), search),
        setup_after(client_setup(tun, given, mark), search) == ProgressView::<E>::Continue(begun),
        begun.stage is Installing,
        is_clear(tun),
        forall|name: Seq<char>| #[trigger] is_sought(given, search, Some(name)) ==> is_clear(name),
        setup_runs(client_setup(tun, given, mark), search + rest, states),
        setup_after(client_setup(tun, given, mark), search + rest) == ProgressView::<E>::Done(
            guard,
        ),
    ensures
        is_sought(given, search, iface),
        !guard.removed,
        forall|rule: TunnelRuleView| #[trigger]
            client_needs(tun, iface, mark, rule) ==> is_kept(guard, states.last(), rule),
        forall|k: int| #![trigger guard.rules[k]]
            0 <= k < guard.rules.len() ==> client_accounts_for(
                tun,
                iface,
                mark,
                states.last(),
                guard.rules[k],
            ),
        match mark {
            Some(value) => keeps_mark(guard, tun, value) && is_kept(
                guard,
                states.last(),
                (TunnelRuleView::Mark { tun, mark: value }),
            ),
            None => forall|k: int|
                0 <= k < guard.rules.len() ==> (#[trigger] guard.rules[k]).chain
                    != "prerouting_mangle"@,
        },
{
    let setup = client_setup(tun, given, mark);
    let target = TargetView::Client { tun, mark };
    let iface = lemma_done_target(setup, target, given, search, begun, rest, states, guard);
    lemma_client_keeps(tun, iface, mark, states.last(), guard);
    assert(mark is Some ==> client_needs(
        tun,
        iface,
        mark,
        (TunnelRuleView::Mark { tun, mark: mark->0 }),
    ));
    iface
}

/// When the setup of a server is done, whatever interface it was asked for with, every rule that
/// the server needs stands and the guard keeps it, and the guard keeps nothing else. The law is on
/// names that can be told from what follows them, and on peers that are addresses.
pub proof fn done_server_has_its_rules<E>(
    port: u16,
    tun: Seq<char>,
    peer: Seq<char>,
    peer6: Option<Seq<char>>,
    given: Option<Seq<char>>,
    mark: Option<u32>,
    search: Seq<OutcomeView<E>>,
    begun: SetupView,
    rest: Seq<OutcomeView<E>>,
    states: Seq<Seq<Standing>>,
    guard: NftRuleGuardView,
) -> (iface: Option<Seq<char>>)
    requires
        is_search(server_setup(port, tun, peer, peer6, given, mark), search),
        setup_after(server_setup(port, tun, peer, peer6, given, mark), search) == ProgressView::<
            E,
        >::Continue(begun),
        begun.stage is Installing,
        is_clear(tun),
        is_address(peer),
        peer6 is Some ==> is_address(peer6->0),
        forall|name: Seq<char>| #[trigger] is_sought(given, search, Some(name)) ==> is_clear(name),
        setup_runs(server_setup(port, tun, peer, peer6, given, mark), search + rest, states),
        setup_after(server_setup(port, tun, peer, peer6, given, mark), search + rest)
            == ProgressView::<E>::Done(guard),
    ensures
        is_sought(given, search, iface),
        !guard.removed,
        forall|rule: TunnelRuleView| #[trigger]
            server_needs(port, tun, peer, peer6, iface, mark, rule) ==> is_kept(
                guard,
                states.last(),
                rule,
            ),
        forall|k: int| #![trigger guard.rules[k]]
            0 <= k < guard.rules.len() ==> server_accounts_for(
                port,
                tun,
                peer,
                peer6,
                iface,
                mark,
                states.last(),
                guard.rules[k],
            ),
        match mark {
            Some(value) => keeps_mark(guard, tun, value),
            None => forall|k: int|
                0 <= k < guard.rules.len() ==> (#[trigger] guard.rules[k]).chain
                    != "prerouting_mangle"@,
        },
{
    let setup = server_setup(port, tun, peer, peer6, given, mark);
    let target = TargetView::Server { port, tun, peer, peer6, mark };
    let iface = lemma_done_target(setup, target, given, search, begun, rest, states, guard);
    lemma_server_keeps(port, tun, peer, peer6, iface, mark, states.last(), guard);
    iface
}

/// The chains have different names.
proof fn lemma_chain_names()
    ensures
        "postrouting"@ != "prerouting"@,
        "postrouting"@ != "prerouting_mangle"@,
        "prerouting"@ != "prerouting_mangle"@,
{
    reveal_strlit("postrouting");
    reveal_strlit("prerouting");
    reveal_strlit("prerouting_mangle");
    assert("postrouting"@.len() == 11 && "prerouting"@.len() == 10 && "prerouting_mangle"@.len()
        == 17);
}

} // verus!
