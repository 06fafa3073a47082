//! Setting up the rules of a tunnel, one request at a time.
//!
//! A `Setup` says which request it needs next; `resume` takes the outcome and goes on.

use vstd::prelude::*;
use vstd::string::*;
use crate::command::{
    add_chain_args, add_rule, add_rule_args, add_table_args, ensure_chain_exists,
    ensure_table_exists, execute_nft, executed, list_chain, list_chain_args, nft_request, nft_run,
    string_views, NftError, NftErrorView, Outcome, OutcomeView, Request, RequestView,
};
use crate::guard::{NftRule, NftRuleGuard, NftRuleGuardView, NftRuleView};
use crate::interface::{detect_physical_interface, detected, Detection, DetectionView, Probe};
use crate::listing::{chosen_handles, get_chain_rule_handles, may_say, shown_rules, ListedRule};
use crate::removal::{removal_over, Removal, RemovalView};
use crate::rule::{option_view, Family, TunnelRule, TunnelRuleView};
use crate::text::same_text;

verus! {

/// What is set up, apart from the interface.
#[derive(Debug)]
pub enum Target {
    /// Packets of the client leave masqueraded.
    Client { tun: String, mark: Option<u32> },
    /// Packets to the port of the server reach the peers of the tunnel.
    Server {
        port: u16,
        tun: String,
        peer: String,
        peer6: Option<String>,
        mark: Option<u32>,
    },
}

/// The model of a `Target`.
pub enum TargetView {
    Client { tun: Seq<char>, mark: Option<u32> },
    Server {
        port: u16,
        tun: Seq<char>,
        peer: Seq<char>,
        peer6: Option<Seq<char>>,
        mark: Option<u32>,
    },
}

impl View for Target {
    type V = TargetView;

    open spec fn view(&self) -> TargetView {
        match self {
            Target::Client { tun, mark } => TargetView::Client { tun: tun@, mark: *mark },
            Target::Server { port, tun, peer, peer6, mark } => TargetView::Server {
                port: *port,
                tun: tun@,
                peer: peer@,
                peer6: option_view(*peer6),
                mark: *mark,
            },
        }
    }
}

/// A step of a setup.
#[derive(Debug)]
pub enum Step {
    /// The table must exist.
    Table,
    /// The chain must exist.
    Chain { name: String, definition: String },
    /// The rule must stand in its chain.
    Rule(TunnelRule),
}

/// The model of a `Step`.
pub enum StepView {
    Table,
    Chain { name: Seq<char>, definition: Seq<char> },
    Rule(TunnelRuleView),
}

impl View for Step {
    type V = StepView;

    open spec fn view(&self) -> StepView {
        match self {
            Step::Table => StepView::Table,
            Step::Chain { name, definition } => StepView::Chain {
                name: name@,
                definition: definition@,
            },
            Step::Rule(rule) => StepView::Rule(rule@),
        }
    }
}

/// The views of a sequence of steps.
pub open spec fn step_views(steps: Seq<Step>) -> Seq<StepView> {
    steps.map_values(|step: Step| step@)
}

/// How far the step of a rule has come.
#[derive(Clone, Copy, Debug, PartialEq, Eq, Structural)]
pub enum Lookup {
    /// The chain is listed, to see whether the rule stands in it.
    Before,
    /// The rule is added.
    Adding,
    /// The chain is listed, to learn the handle of the rule.
    After,
}

/// The definition of the chain for masquerading.
pub open spec fn postrouting_chain() -> StepView {
    StepView::Chain {
        name: "postrouting"@,
        definition: "{ type nat hook postrouting priority srcnat; policy accept; }"@,
    }
}

/// The definition of the chain for forwarding.
pub open spec fn prerouting_chain() -> StepView {
    StepView::Chain {
        name: "prerouting"@,
        definition: "{ type nat hook prerouting priority dstnat; policy accept; }"@,
    }
}

/// The definition of the chain for marking.
pub open spec fn mangle_chain() -> StepView {
    StepView::Chain {
        name: "prerouting_mangle"@,
        definition: "{ type filter hook prerouting priority mangle; policy accept; }"@,
    }
}

/// The steps that make packets from the tunnel carry the mark.
pub open spec fn mark_steps(tun: Seq<char>, mark: u32) -> Seq<StepView> {
    seq![StepView::Table, mangle_chain(), StepView::Rule(TunnelRuleView::Mark { tun, mark })]
}

/// The steps for a mark, or none without one.
pub open spec fn optional_mark_steps(tun: Seq<char>, mark: Option<u32>) -> Seq<StepView> {
    match mark {
        Some(mark) => mark_steps(tun, mark),
        None => seq![],
    }
}

/// The steps that set up the target on the interface, or on any interface.
pub open spec fn plan(target: TargetView, iface: Option<Seq<char>>) -> Seq<StepView> {
    match target {
        TargetView::Client { tun, mark } => {
            seq![
                StepView::Table,
                postrouting_chain(),
                StepView::Rule(TunnelRuleView::Masquerade { tun, iface }),
            ] + optional_mark_steps(tun, mark)
        },
        TargetView::Server { port, tun, peer, peer6, mark } => {
            seq![
                StepView::Table,
                prerouting_chain(),
                StepView::Rule(TunnelRuleView::Forward { iface, port, family: Family::V4, peer }),
            ] + (match peer6 {
                Some(peer) => seq![
                    StepView::Rule(
                        TunnelRuleView::Forward { iface, port, family: Family::V6, peer },
                    ),
                ],
                None => seq![],
            }) + optional_mark_steps(tun, mark)
        },
    }
}

/// Where a setup stands.
#[derive(Debug)]
enum Stage {
    /// The interface is being looked for.
    Detecting { probe: Probe, target: Target },
    /// The step is being taken; the rest follows.
    Installing { step: Step, rest: Vec<Step>, lookup: Lookup },
}

/// The model of where a setup stands.
pub enum StageView {
    Detecting { probe: Probe, target: TargetView },
    Installing { step: StepView, rest: Seq<StepView>, lookup: Lookup },
}

/// A setup that is under way.
#[derive(Debug)]
pub struct Setup {
    guard: NftRuleGuard,
    undoes: bool,
    made: Vec<String>,
    stage: Stage,
}

/// The model of a `Setup`: the guard with the rules that were set up so far, whether what was set
/// up is undone if the setup fails, the chains that it has made sure of, and where it stands.
pub struct SetupView {
    pub guard: NftRuleGuardView,
    pub undoes: bool,
    pub made: Seq<Seq<char>>,
    pub stage: StageView,
}

impl Stage {
    closed spec fn view(&self) -> StageView {
        match self {
            Stage::Detecting { probe, target } => StageView::Detecting {
                probe: *probe,
                target: target@,
            },
            Stage::Installing { step, rest, lookup } => StageView::Installing {
                step: step@,
                rest: step_views(rest@),
                lookup: *lookup,
            },
        }
    }
}

impl View for Setup {
    type V = SetupView;

    closed spec fn view(&self) -> SetupView {
        SetupView {
            guard: self.guard@,
            undoes: self.undoes,
            made: string_views(self.made@),
            stage: self.stage.view(),
        }
    }
}

/// What became of a setup after an outcome.
#[derive(Debug)]
pub enum Progress<E> {
    /// Another request is needed.
    Continue(Setup),
    /// All rules stand; the guard keeps them.
    Done(NftRuleGuard),
    /// The setup failed. If it undoes what it has set up, and its first chain was made, the
    /// removal takes back the rules of the guard, which is then spent, and what is empty of the
    /// chains that were made. Else the removal has nothing to do, and the guard is as it was.
    Failed { error: NftError<E>, guard: NftRuleGuard, removal: Removal },
}

/// The model of a `Progress`.
pub enum ProgressView<E> {
    Continue(SetupView),
    Done(NftRuleGuardView),
    Failed { error: NftErrorView<E>, guard: NftRuleGuardView, removal: RemovalView },
}

impl<E> View for Progress<E> {
    type V = ProgressView<E>;

    open spec fn view(&self) -> ProgressView<E> {
        match self {
            Progress::Continue(setup) => ProgressView::Continue(setup@),
            Progress::Done(guard) => ProgressView::Done(guard@),
            Progress::Failed { error, guard, removal } => ProgressView::Failed {
                error: error@,
                guard: guard@,
                removal: removal@,
            },
        }
    }
}

/// The stage that begins the steps, of which there is at least one.
pub open spec fn beginning(steps: Seq<StepView>) -> StageView {
    StageView::Installing { step: steps[0], rest: steps.drop_first(), lookup: Lookup::Before }
}

/// The stage in which the setup of a target starts: `-` and the empty name stand for any
/// interface; without a name the interface is looked for.
pub open spec fn first_stage(target: TargetView, physical_iface: Option<Seq<char>>) -> StageView {
    match physical_iface {
        Some(name) => if name == "-"@ || name.len() == 0 {
            beginning(plan(target, None))
        } else {
            beginning(plan(target, Some(name)))
        },
        None => StageView::Detecting { probe: Probe::RouteTable, target },
    }
}

/// The setup of a client, from its start.
pub open spec fn client_setup(
    tun: Seq<char>,
    physical_iface: Option<Seq<char>>,
    mark: Option<u32>,
) -> SetupView {
    SetupView {
        guard: NftRuleGuardView::empty(),
        undoes: true,
        made: seq![],
        stage: first_stage(TargetView::Client { tun, mark }, physical_iface),
    }
}

/// The setup of a server, from its start.
pub open spec fn server_setup(
    port: u16,
    tun: Seq<char>,
    peer: Seq<char>,
    peer6: Option<Seq<char>>,
    physical_iface: Option<Seq<char>>,
    mark: Option<u32>,
) -> SetupView {
    SetupView {
        guard: NftRuleGuardView::empty(),
        undoes: true,
        made: seq![],
        stage: first_stage(TargetView::Server { port, tun, peer, peer6, mark }, physical_iface),
    }
}

/// The setup of a mark for the guard, from its start.
pub open spec fn mark_setup(guard: NftRuleGuardView, tun: Seq<char>, mark: u32) -> SetupView {
    SetupView { guard, undoes: false, made: seq![], stage: beginning(mark_steps(tun, mark)) }
}

/// The arguments with which `nft` takes the step.
pub open spec fn step_args(step: StepView, lookup: Lookup) -> Seq<Seq<char>> {
    match step {
        StepView::Table => add_table_args(),
        StepView::Chain { name, definition } => add_chain_args(name, definition),
        StepView::Rule(rule) => match lookup {
            Lookup::Adding => add_rule_args(rule.chain(), rule.text()),
            _ => list_chain_args(rule.chain()),
        },
    }
}

/// The handles of the listed rules that are taken for the rule.
pub open spec fn matching_handles(rule: TunnelRuleView, listed: Seq<ListedRule>) -> Seq<u64> {
    chosen_handles(listed, listed.map_values(|one: ListedRule| rule.matches(one.text)))
}

/// The rule as a guard keeps it, once for each handle.
pub open spec fn registered(rule: TunnelRuleView, handles: Seq<u64>) -> Seq<NftRuleView> {
    handles.map_values(
        |handle: u64|
            NftRuleView { chain: rule.chain(), handle, description: rule.text() },
    )
}

/// What follows the step when it is done.
pub open spec fn advanced<E>(
    guard: NftRuleGuardView,
    undoes: bool,
    made: Seq<Seq<char>>,
    rest: Seq<StepView>,
) -> ProgressView<E> {
    if rest.len() == 0 {
        ProgressView::Done(guard)
    } else {
        ProgressView::Continue(SetupView { guard, undoes, made, stage: beginning(rest) })
    }
}

/// The end of a setup that failed. Before the first chain is made, nothing is there to undo.
pub open spec fn failed<E>(
    guard: NftRuleGuardView,
    undoes: bool,
    made: Seq<Seq<char>>,
    error: NftErrorView<E>,
) -> ProgressView<E> {
    if undoes && made.len() > 0 {
        ProgressView::Failed {
            error,
            guard: guard.spent(),
            removal: removal_over(guard, made),
        }
    } else {
        ProgressView::Failed { error, guard, removal: RemovalView::Finished }
    }
}

/// The chains that were made sure of, once the step is done.
pub open spec fn made_after(made: Seq<Seq<char>>, step: StepView) -> Seq<Seq<char>> {
    match step {
        StepView::Chain { name, .. } => made.push(name),
        _ => made,
    }
}

impl SetupView {
    /// The request that the setup needs next.
    pub open spec fn request(self) -> RequestView {
        match self.stage {
            StageView::Detecting { probe, .. } => probe.asks(),
            StageView::Installing { step, lookup, .. } => nft_run(step_args(step, lookup)),
        }
    }

    /// The setup at another stage.
    pub open spec fn at(self, stage: StageView) -> SetupView {
        SetupView { stage, ..self }
    }

    /// What becomes of the setup when its request came to this outcome.
    pub open spec fn resumed<E>(self, outcome: OutcomeView<E>) -> ProgressView<E> {
        match self.stage {
            StageView::Detecting { probe, target } => match detected(probe, outcome) {
                DetectionView::Found(name) => ProgressView::Continue(
                    self.at(beginning(plan(target, Some(name)))),
                ),
                DetectionView::Next(probe) => ProgressView::Continue(
                    self.at(StageView::Detecting { probe, target }),
                ),
                DetectionView::Nothing => ProgressView::Continue(
                    self.at(beginning(plan(target, None))),
                ),
            },
            StageView::Installing { step, rest, lookup } => {
                if step is Rule && lookup != Lookup::Adding {
                    let rule = step->Rule_0;
                    match shown_rules(outcome) {
                        Err(error) => failed(
                            self.guard,
                            self.undoes,
                            self.made,
                            NftErrorView::Io(error),
                        ),
                        Ok(listed) => {
                            let handles = matching_handles(rule, listed);
                            if lookup == Lookup::Before && handles.len() == 0 {
                                ProgressView::Continue(
                                    self.at(
                                        StageView::Installing {
                                            step,
                                            rest,
                                            lookup: Lookup::Adding,
                                        },
                                    ),
                                )
                            } else {
                                advanced(
                                    self.guard.with(registered(rule, handles)),
                                    self.undoes,
                                    self.made,
                                    rest,
                                )
                            }
                        },
                    }
                } else {
                    match executed(step_args(step, lookup), outcome) {
                        Err(error) => failed(self.guard, self.undoes, self.made, error),
                        Ok(_) => if step is Rule {
                            ProgressView::Continue(
                                self.at(
                                    StageView::Installing { step, rest, lookup: Lookup::After },
                                ),
                            )
                        } else {
                            advanced(self.guard, self.undoes, made_after(self.made, step), rest)
                        },
                    }
                }
            },
        }
    }
}

/// An owned copy of the text, if there is one.
fn owned_option(text: Option<&str>) -> (copy: Option<String>)
    ensures
        option_view(copy) == (match text {
            Some(text) => Some(text@),
            None => None,
        }),
{
    match text {
        Some(text) => Some(text.to_owned()),
        None => None,
    }
}

/// Puts the steps for a mark behind the others.
fn push_mark_steps(steps: &mut Vec<Step>, tun: &str, mark: u32)
    ensures
        step_views(final(steps)@) == step_views(old(steps)@) + mark_steps(tun@, mark),
{
    steps.push(Step::Table);
    steps.push(
        Step::Chain {
            name: "prerouting_mangle".to_owned(),
            definition: "{ type filter hook prerouting priority mangle; policy accept; }".to_owned(),
        },
    );
    steps.push(Step::Rule(TunnelRule::Mark { tun: tun.to_owned(), mark }));
    assert(step_views(steps@) =~= step_views(old(steps)@) + mark_steps(tun@, mark));
}

/// The stage that begins the setup of the target on the interface, or on any interface.
fn begin(target: Target, iface: Option<&str>) -> (stage: Stage)
    ensures
        stage.view() == beginning(
            plan(
                target@,
                match iface {
                    Some(iface) => Some(iface@),
                    None => None,
                },
            ),
        ),
{
    let mut rest: Vec<Step> = Vec::new();
    let ghost model = match iface {
        Some(iface) => Some(iface@),
        None => None,
    };
    match &target {
        Target::Client { tun, mark } => {
            rest.push(
                Step::Chain {
                    name: "postrouting".to_owned(),
                    definition: "{ type nat hook postrouting priority srcnat; policy accept; }".to_owned(),
                },
            );
            rest.push(
                Step::Rule(
                    TunnelRule::Masquerade { tun: tun.clone(), iface: owned_option(iface) },
                ),
            );
            match mark {
                Some(mark) => push_mark_steps(&mut rest, tun.as_str(), *mark),
                None => {},
            }
        },
        Target::Server { port, tun, peer, peer6, mark } => {
            rest.push(
                Step::Chain {
                    name: "prerouting".to_owned(),
                    definition: "{ type nat hook prerouting priority dstnat; policy accept; }".to_owned(),
                },
            );
            rest.push(
                Step::Rule(
                    TunnelRule::Forward {
                        iface: owned_option(iface),
                        port: *port,
                        family: Family::V4,
                        peer: peer.clone(),
                    },
                ),
            );
            match peer6 {
                Some(peer6) => {
                    rest.push(
                        Step::Rule(
                            TunnelRule::Forward {
                                iface: owned_option(iface),
                                port: *port,
                                family: Family::V6,
                                peer: peer6.clone(),
                            },
                        ),
                    );
                },
                None => {},
            }
            match mark {
                Some(mark) => push_mark_steps(&mut rest, tun.as_str(), *mark),
                None => {},
            }
        },
    }
    proof {
        let steps = plan(target@, model);
        assert(steps[0] == StepView::Table);
        assert(step_views(rest@) =~= steps.drop_first());
    }
    Stage::Installing { step: Step::Table, rest, lookup: Lookup::Before }
}

/// The setup of the target from its start.
fn start(target: Target, physical_iface: Option<&str>) -> (setup: Setup)
    ensures
        setup@ == (SetupView {
            guard: NftRuleGuardView::empty(),
            undoes: true,
            made: seq![],
            stage: first_stage(
                target@,
                match physical_iface {
                    Some(name) => Some(name@),
                    None => None,
                },
            ),
        }),
{
    let stage = match physical_iface {
        Some(name) => {
            if same_text(name, "-") || name.is_empty() {
                begin(target, None)
            } else {
                begin(target, Some(name))
            }
        },
        None => Stage::Detecting { probe: Probe::RouteTable, target },
    };
    let made: Vec<String> = Vec::new();
    assert(string_views(made@) =~= Seq::<Seq<char>>::empty());
    Setup { guard: NftRuleGuard::new(), undoes: true, made, stage }
}

impl NftRuleGuard {
    /// Sets up client nftables rules in table `inet phantun`:
    /// Chain: `postrouting`
    /// Rule: `iifname "<tun_name>" oif "<iface>" masquerade`
    /// If `physical_iface` is None, auto-detection is attempted. If still None or if
    /// `physical_iface` is Some("-"), `iifname "<tun_name>" masquerade` is added.
    /// If `fwmark` is Some, a rule is also added to `prerouting_mangle`:
    /// `iifname "<tun_name>" meta mark set <fwmark>`
    ///
    /// The setup is driven by `Setup::request` and `Setup::resume`. If it fails, what it has set
    /// up is removed again.
    pub fn setup_client(
        tun_name: &str,
        physical_iface: Option<&str>,
        fwmark: Option<u32>,
    ) -> (setup: Setup)
        ensures
            setup@ == (SetupView {
                guard: NftRuleGuardView::empty(),
                undoes: true,
                made: seq![],
                stage: first_stage(
                    TargetView::Client { tun: tun_name@, mark: fwmark },
                    match physical_iface {
                        Some(name) => Some(name@),
                        None => None,
                    },
                ),
            }),
            physical_iface is None ==> setup@.stage == (StageView::Detecting {
                probe: Probe::RouteTable,
                target: TargetView::Client { tun: tun_name@, mark: fwmark },
            }),
            physical_iface is Some ==> setup@.stage is Installing,
            setup@ == client_setup(
                tun_name@,
                match physical_iface {
                    Some(name) => Some(name@),
                    None => None,
                },
                fwmark,
            ),
    {
        start(Target::Client { tun: tun_name.to_owned(), mark: fwmark }, physical_iface)
    }

    /// Adds an nftables rule to set the fwmark for packets originating from `tun_name`:
    /// Chain: `prerouting_mangle`
    /// Hook: `prerouting` priority `mangle` (-150)
    /// Rule: `iifname "<tun_name>" meta mark set <fwmark>`
    ///
    /// The setup takes the guard in and gives it back when it ends: with the rule, or as it was
    /// if the rule could not be added.
    pub fn add_fwmark_rule(self, tun_name: &str, fwmark: u32) -> (setup: Setup)
        ensures
            setup@ == (SetupView {
                guard: self@,
                undoes: false,
                made: seq![],
                stage: beginning(mark_steps(tun_name@, fwmark)),
            }),
            setup@ == mark_setup(self@, tun_name@, fwmark),
    {
        let mut steps: Vec<Step> = Vec::new();
        push_mark_steps(&mut steps, tun_name, fwmark);
        let ghost all = step_views(steps@);
        assert(all =~= mark_steps(tun_name@, fwmark));
        let step = steps.remove(0);
        assert(step_views(steps@) =~= all.drop_first());
        let made: Vec<String> = Vec::new();
        assert(string_views(made@) =~= Seq::<Seq<char>>::empty());
        Setup {
            guard: self,
            undoes: false,
            made,
            stage: Stage::Installing { step, rest: steps, lookup: Lookup::Before },
        }
    }

    /// Sets up server nftables rules in table `inet phantun`:
    /// Chain: `prerouting`
    /// IPv4 Rule: `iifname "<iface>" tcp dport <local_port> dnat ip to <tun_peer>`
    /// IPv6 Rule: `iifname "<iface>" tcp dport <local_port> dnat ip6 to <tun_peer6>` (if IPv6 enabled)
    /// If `physical_iface` is None, auto-detection is attempted. If still None or if
    /// `physical_iface` is Some("-"), rules are added without the `iifname "<iface>"` clause:
    /// `tcp dport <local_port> dnat ip to <tun_peer>`
    /// If `fwmark` is Some, a rule is also added to `prerouting_mangle`:
    /// `iifname "<tun_name>" meta mark set <fwmark>`
    ///
    /// The addresses are taken as text. The setup is driven by `Setup::request` and
    /// `Setup::resume`. If it fails, what it has set up is removed again.
    pub fn setup_server(
        local_port: u16,
        tun_name: &str,
        tun_peer: &str,
        tun_peer6: Option<&str>,
        physical_iface: Option<&str>,
        fwmark: Option<u32>,
    ) -> (setup: Setup)
        ensures
            setup@ == (SetupView {
                guard: NftRuleGuardView::empty(),
                undoes: true,
                made: seq![],
                stage: first_stage(
                    TargetView::Server {
                        port: local_port,
                        tun: tun_name@,
                        peer: tun_peer@,
                        peer6: match tun_peer6 {
                            Some(peer) => Some(peer@),
                            None => None,
                        },
                        mark: fwmark,
                    },
                    match physical_iface {
                        Some(name) => Some(name@),
                        None => None,
                    },
                ),
            }),
            physical_iface is None ==> setup@.stage == (StageView::Detecting {
                probe: Probe::RouteTable,
                target: TargetView::Server {
                    port: local_port,
                    tun: tun_name@,
                    peer: tun_peer@,
                    peer6: match tun_peer6 {
                        Some(peer) => Some(peer@),
                        None => None,
                    },
                    mark: fwmark,
                },
            }),
            physical_iface is Some ==> setup@.stage is Installing,
            setup@ == server_setup(
                local_port,
                tun_name@,
                tun_peer@,
                match tun_peer6 {
                    Some(peer) => Some(peer@),
                    None => None,
                },
                match physical_iface {
                    Some(name) => Some(name@),
                    None => None,
                },
                fwmark,
            ),
    {
        start(
            Target::Server {
                port: local_port,
                tun: tun_name.to_owned(),
                peer: tun_peer.to_owned(),
                peer6: owned_option(tun_peer6),
                mark: fwmark,
            },
            physical_iface,
        )
    }
}

/// The arguments with which `nft` takes the step.
fn args_of(step: &Step, lookup: Lookup) -> (args: Vec<String>)
    ensures
        string_views(args@) == step_args(step@, lookup),
{
    match step {
        Step::Table => ensure_table_exists(),
        Step::Chain { name, definition } => ensure_chain_exists(name.as_str(), definition.as_str()),
        Step::Rule(rule) => match lookup {
            Lookup::Adding => add_rule(rule.chain(), rule.text().as_str()),
            _ => list_chain(rule.chain()),
        },
    }
}

/// The handles of the rules that the outcome of a listing shows and that are taken for the rule.
fn find_rule<E>(rule: &TunnelRule, outcome: Outcome<E>) -> (handles: Result<Vec<u64>, E>)
    ensures
        match handles {
            Ok(handles) => shown_rules(outcome@) is Ok && handles@ == matching_handles(
                rule@,
                shown_rules(outcome@)->Ok_0,
            ),
            Err(error) => shown_rules(outcome@) == Err::<Seq<ListedRule>, E>(error),
        },
{
    let predicate = |listed: &str| -> (same: bool)
        ensures
            same == rule@.matches(listed@),
        { rule.matches(listed) };
    let ghost model = outcome@;
    let handles = get_chain_rule_handles(outcome, &predicate);
    proof {
        if handles is Ok {
            let listed = shown_rules(model)->Ok_0;
            let wanted = listed.map_values(|one: ListedRule| rule@.matches(one.text));
            let verdicts = choose|verdicts: Seq<bool>|
                {
                    &&& verdicts.len() == listed.len()
                    &&& forall|i: int|
                        0 <= i < listed.len() ==> may_say(
                            predicate,
                            listed[i].text,
                            #[trigger] verdicts[i],
                        )
                    &&& handles->Ok_0@ == #[trigger] chosen_handles(listed, verdicts)
                };
            assert(verdicts =~= wanted);
        }
    }
    handles
}

/// Lets the guard keep the rule, once for each handle.
fn register(guard: &mut NftRuleGuard, rule: &TunnelRule, handles: &Vec<u64>)
    ensures
        final(guard)@ == old(guard)@.with(registered(rule@, handles@)),
{
    let chain = rule.chain();
    let text = rule.text();
    let ghost all = registered(rule@, handles@);
    assert(guard@.rules =~= old(guard)@.rules + all.take(0));
    for i in 0..handles.len()
        invariant
            all == registered(rule@, handles@),
            chain@ == rule@.chain(),
            text@ == rule@.text(),
            guard@.rules == old(guard)@.rules + all.take(i as int),
            guard@.removed == old(guard)@.removed,
    {
        let ghost before = guard@.rules;
        let kept = NftRule {
            chain: chain.to_owned(),
            handle: handles[i],
            description: text.clone(),
        };
        guard.rules.push(kept);
        assert(guard@.rules =~= before.push(kept@));
        assert(all.take(i + 1) =~= all.take(i as int).push(kept@));
    }
    assert(all.take(handles@.len() as int) == all);
}

/// What follows a step that is done.
fn advance<E>(
    guard: NftRuleGuard,
    undoes: bool,
    made: Vec<String>,
    mut rest: Vec<Step>,
) -> (progress: Progress<E>)
    ensures
        progress@ == advanced::<E>(guard@, undoes, string_views(made@), step_views(rest@)),
{
    if rest.len() == 0 {
        return Progress::Done(guard);
    }
    let ghost all = step_views(rest@);
    let step = rest.remove(0);
    assert(step_views(rest@) =~= all.drop_first());
    Progress::Continue(
        Setup {
            guard,
            undoes,
            made,
            stage: Stage::Installing { step, rest, lookup: Lookup::Before },
        },
    )
}

/// Ends a setup that failed.
fn fail<E>(
    mut guard: NftRuleGuard,
    undoes: bool,
    made: Vec<String>,
    error: NftError<E>,
) -> (progress: Progress<E>)
    ensures
        progress@ == failed(guard@, undoes, string_views(made@), error@),
{
    if undoes && made.len() > 0 {
        let removal = guard.remove_over(made);
        Progress::Failed { error, guard, removal }
    } else {
        Progress::Failed { error, guard, removal: Removal::nothing() }
    }
}

impl Setup {
    /// Returns the request that the setup needs next.
    pub fn request(&self) -> (request: Request)
        ensures
            request@ == self@.request(),
    {
        match &self.stage {
            Stage::Detecting { probe, .. } => probe.request(),
            Stage::Installing { step, lookup, .. } => nft_request(args_of(step, *lookup)),
        }
    }

    /// Goes on with the setup after its request came to this outcome.
    pub fn resume<E>(self, outcome: Outcome<E>) -> (progress: Progress<E>)
        ensures
            progress@ == self@.resumed(outcome@),
    {
        let mut guard = self.guard;
        let undoes = self.undoes;
        let mut made = self.made;
        match self.stage {
            Stage::Detecting { probe, target } => match detect_physical_interface(probe, outcome) {
                Detection::Found(name) => {
                    let stage = begin(target, Some(name.as_str()));
                    Progress::Continue(Setup { guard, undoes, made, stage })
                },
                Detection::Next(probe) => Progress::Continue(
                    Setup { guard, undoes, made, stage: Stage::Detecting { probe, target } },
                ),
                Detection::Nothing => {
                    let stage = begin(target, None);
                    Progress::Continue(Setup { guard, undoes, made, stage })
                },
            },
            Stage::Installing { step, rest, lookup } => {
                let args = args_of(&step, lookup);
                match step {
                    Step::Rule(rule) => match lookup {
                        Lookup::Adding => match execute_nft(&args, outcome) {
                            Err(error) => fail(guard, undoes, made, error),
                            Ok(_) => Progress::Continue(
                                Setup {
                                    guard,
                                    undoes,
                                    made,
                                    stage: Stage::Installing {
                                        step: Step::Rule(rule),
                                        rest,
                                        lookup: Lookup::After,
                                    },
                                },
                            ),
                        },
                        _ => match find_rule(&rule, outcome) {
                            Err(error) => fail(guard, undoes, made, NftError::Io(error)),
                            Ok(handles) => {
                                if lookup == Lookup::Before && handles.len() == 0 {
                                    return Progress::Continue(
                                        Setup {
                                            guard,
                                            undoes,
                                            made,
                                            stage: Stage::Installing {
                                                step: Step::Rule(rule),
                                                rest,
                                                lookup: Lookup::Adding,
                                            },
                                        },
                                    );
                                }
                                register(&mut guard, &rule, &handles);
                                advance(guard, undoes, made, rest)
                            },
                        },
                    },
                    Step::Chain { name, .. } => match execute_nft(&args, outcome) {
                        Err(error) => fail(guard, undoes, made, error),
                        Ok(_) => {
                            let ghost before = string_views(made@);
                            made.push(name);
                            assert(string_views(made@) =~= before.push(name@));
                            advance(guard, undoes, made, rest)
                        },
                    },
                    Step::Table => match execute_nft(&args, outcome) {
                        Err(error) => fail(guard, undoes, made, error),
                        Ok(_) => advance(guard, undoes, made, rest),
                    },
                }
            },
        }
    }
}

} // verus!
