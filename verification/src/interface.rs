//! Finding the physical network interface of the machine.
//!
//! Three sources are asked in turn, each only when those before it named no interface: the
//! kernel's routes, the default route that `ip` shows, and the kernel's list of devices.

use vstd::prelude::*;
use vstd::string::*;
use crate::command::{
    owned, utf8_lossy, utf8_lossy_text, Outcome, OutcomeView, Request, RequestView,
};
use crate::number::{numeral_value, parse_number, Radix};
use crate::text::{
    begins_with, chars_of, leading, lemma_leading, lemma_leading_unique, lemma_word_progress, lines,
    lines_of, other_than, same_text, solid, starts_with, trim, trimmed, trimmed_start, views, words,
    words_of,
};

verus! {

/// A source that may name the interface.
#[derive(Clone, Copy, Debug, PartialEq, Eq, Structural)]
pub enum Probe {
    /// The kernel's routes.
    RouteTable,
    /// The default route, as `ip` shows it.
    DefaultRoute,
    /// The kernel's list of devices.
    DeviceTable,
}

impl Probe {
    /// The request that asks the source.
    pub open spec fn asks(self) -> RequestView {
        match self {
            Probe::RouteTable => RequestView::ReadFile("/proc/net/route"@),
            Probe::DefaultRoute => RequestView::Run {
                program: "ip"@,
                args: seq!["route"@, "show"@, "default"@],
            },
            Probe::DeviceTable => RequestView::ReadFile("/proc/net/dev"@),
        }
    }

    /// Returns the request that asks the source.
    pub fn request(&self) -> (request: Request)
        ensures
            request@ == self.asks(),
    {
        match self {
            Probe::RouteTable => Request::ReadFile("/proc/net/route".to_owned()),
            Probe::DefaultRoute => {
                let parts = vec!["route", "show", "default"];
                assert(views(parts@) =~= seq!["route"@, "show"@, "default"@]);
                Request::Run { program: "ip".to_owned(), args: owned(&parts) }
            },
            Probe::DeviceTable => Request::ReadFile("/proc/net/dev".to_owned()),
        }
    }
}

/// The model of a default route.
pub struct Route {
    pub iface: Seq<char>,
    pub metric: nat,
}

/// All but the first `n` lines.
pub open spec fn lines_after(lines: Seq<Seq<char>>, n: nat) -> Seq<Seq<char>> {
    if lines.len() <= n {
        seq![]
    } else {
        lines.skip(n as int)
    }
}

/// The default route that a line of the kernel's routes shows: destination and mask are zero.
/// A metric that is no number counts as zero.
pub open spec fn default_route(line: Seq<char>) -> Option<Route> {
    let fields = words_of(line);
    if fields.len() >= 8 && fields[1] == "00000000"@ && fields[7] == "00000000"@ {
        let metric = match numeral_value(fields[6], Radix::Ten, u32::MAX as nat) {
            Ok(metric) => metric,
            Err(_) => 0,
        };
        Some(Route { iface: fields[0], metric })
    } else {
        None
    }
}

/// The default routes that the lines show, in order.
pub open spec fn default_routes(lines: Seq<Seq<char>>) -> Seq<Route>
    decreases lines.len(),
{
    if lines.len() == 0 {
        seq![]
    } else {
        let before = default_routes(lines.drop_last());
        match default_route(lines.last()) {
            None => before,
            Some(route) => before.push(route),
        }
    }
}

/// The route at index `i` is the first of those with the lowest metric; the highest metric
/// there can be does not count.
pub open spec fn is_best_route(routes: Seq<Route>, i: int) -> bool {
    &&& 0 <= i < routes.len()
    &&& routes[i].metric < u32::MAX
    &&& forall|j: int| 0 <= j < routes.len() ==> routes[i].metric <= (#[trigger] routes[j]).metric
    &&& forall|j: int| 0 <= j < i ==> routes[i].metric < (#[trigger] routes[j]).metric
}

/// The interface of the best default route.
pub open spec fn route_interface(content: Seq<char>) -> Option<Seq<char>> {
    let routes = default_routes(lines_after(lines_of(content), 1));
    if exists|i: int| is_best_route(routes, i) {
        Some(routes[choose|i: int| is_best_route(routes, i)].iface)
    } else {
        None
    }
}

/// The word behind the first word `dev`.
pub open spec fn word_after_dev(words: Seq<Seq<char>>) -> Option<Seq<char>>
    decreases words.len(),
{
    if words.len() < 2 {
        None
    } else if words[0] == "dev"@ {
        Some(words[1])
    } else {
        word_after_dev(words.skip(1))
    }
}

/// The device that a line of the kernel's list names before the first colon, unless the name is
/// that of the loopback or of a virtual device.
pub open spec fn device(line: Seq<char>) -> Option<Seq<char>> {
    let n = leading(line, other_than(':'));
    let name = trimmed(line.take(n as int));
    if n >= line.len() || is_virtual(name) {
        None
    } else {
        Some(name)
    }
}

/// The name is that of the loopback, or begins as one of these kinds of virtual devices is named:
/// tunnels, taps, the links, bridges and overlays of containers and virtual machines, WireGuard
/// devices, and devices for tests.
pub open spec fn is_virtual(name: Seq<char>) -> bool {
    ||| name == "lo"@
    ||| begins_with(name, "tun"@)
    ||| begins_with(name, "tap"@)
    ||| begins_with(name, "docker"@)
    ||| begins_with(name, "veth"@)
    ||| begins_with(name, "vnet"@)
    ||| begins_with(name, "virbr"@)
    ||| begins_with(name, "br-"@)
    ||| begins_with(name, "wg"@)
    ||| begins_with(name, "dummy"@)
    ||| begins_with(name, "ifb"@)
    ||| begins_with(name, "vxlan"@)
    ||| begins_with(name, "lxc"@)
    ||| begins_with(name, "lxdbr"@)
    ||| begins_with(name, "podman"@)
    ||| begins_with(name, "cni"@)
    ||| begins_with(name, "flannel"@)
    ||| begins_with(name, "cali"@)
    ||| begins_with(name, "vmnet"@)
    ||| begins_with(name, "vboxnet"@)
    ||| begins_with(name, "test"@)
}

/// The first device that the lines name.
pub open spec fn first_device(lines: Seq<Seq<char>>) -> Option<Seq<char>>
    decreases lines.len(),
{
    if lines.len() == 0 {
        None
    } else {
        match device(lines[0]) {
            Some(name) => Some(name),
            None => first_device(lines.skip(1)),
        }
    }
}

/// The interface that the source names, if `text` is what it says.
pub open spec fn named_interface(probe: Probe, text: Seq<char>) -> Option<Seq<char>> {
    match probe {
        Probe::RouteTable => route_interface(text),
        Probe::DefaultRoute => word_after_dev(words_of(text)),
        Probe::DeviceTable => first_device(lines_after(lines_of(text), 2)),
    }
}

/// The name that a function found is the one that its model gives.
pub open spec fn finds(found: Option<String>, model: Option<Seq<char>>) -> bool {
    match found {
        Some(name) => model == Some(name@),
        None => model is None,
    }
}

/// The default route that a line of the kernel's routes shows.
fn read_default_route(line: &str) -> (route: Option<(&str, u32)>)
    ensures
        match route {
            Some((iface, metric)) => default_route(line@) == Some(
                Route { iface: iface@, metric: metric as nat },
            ),
            None => default_route(line@) is None,
        },
{
    let fields = words(line);
    assert(forall|i: int| 0 <= i < fields@.len() ==> views(fields@)[i] == (#[trigger] fields@[i])@);
    if fields.len() >= 8 && same_text(fields[1], "00000000") && same_text(fields[7], "00000000") {
        let metric: u32 = match parse_number(fields[6], Radix::Ten, u32::MAX as u64) {
            Ok(metric) => metric as u32,
            Err(_) => 0,
        };
        Some((fields[0], metric))
    } else {
        None
    }
}

/// The interface of the best default route, if `content` is the table of the kernel's routes.
fn find_route_interface(content: &str) -> (found: Option<String>)
    ensures
        finds(found, route_interface(content@)),
{
    let rows = lines(content);
    let mut best: Option<&str> = None;
    let mut best_metric: u32 = u32::MAX;
    let ghost mut best_at: int = 0;
    let ghost all = lines_after(lines_of(content@), 1);
    let mut i: usize = 1;
    assert(all.take(0) == Seq::<Seq<char>>::empty());
    while i < rows.len()
        invariant
            1 <= i,
            views(rows@) == lines_of(content@),
            all == lines_after(lines_of(content@), 1),
            i == 1 || i <= rows@.len(),
            match best {
                Some(name) => {
                    let routes = default_routes(all.take(i - 1));
                    &&& is_best_route(routes, best_at)
                    &&& routes[best_at].metric == best_metric
                    &&& routes[best_at].iface == name@
                },
                None => {
                    let routes = default_routes(all.take(i - 1));
                    &&& best_metric == u32::MAX
                    &&& forall|j: int|
                        0 <= j < routes.len() ==> (#[trigger] routes[j]).metric >= u32::MAX
                },
            },
        decreases rows@.len() - i,
    {
        let ghost routes = default_routes(all.take(i - 1));
        assert(all.take(i as int).drop_last() == all.take(i - 1));
        assert(all.take(i as int).last() == rows@[i as int]@) by {
            assert(all[i - 1] == lines_of(content@)[i as int]);
            assert(views(rows@)[i as int] == rows@[i as int]@);
        }
        match read_default_route(rows[i]) {
            None => {},
            Some((iface, metric)) => {
                proof {
                    let now = default_routes(all.take(i as int));
                    assert(now == routes.push(Route { iface: iface@, metric: metric as nat }));
                    if metric < best_metric {
                        best_at = routes.len() as int;
                    }
                }
                if metric < best_metric {
                    best_metric = metric;
                    best = Some(iface);
                }
            },
        }
        i += 1;
    }
    proof {
        let routes = default_routes(all);
        assert(all.take(all.len() as int) == all);
        if best is Some {
            assert(is_best_route(routes, best_at));
            let chosen = choose|i: int| is_best_route(routes, i);
            assert(chosen == best_at);
        } else {
            assert forall|i: int| !is_best_route(routes, i) by {
                if 0 <= i < routes.len() {
                    assert(routes[i].metric >= u32::MAX);
                }
            }
        }
    }
    match best {
        Some(name) => Some(name.to_owned()),
        None => None,
    }
}

/// The word behind the first word `dev` of `text`.
fn find_word_after_dev(text: &str) -> (found: Option<String>)
    ensures
        finds(found, word_after_dev(words_of(text@))),
{
    let all = words(text);
    let mut i: usize = 0;
    assert(views(all@).skip(0) == words_of(text@));
    while all.len() - i >= 2
        invariant
            i <= all.len(),
            word_after_dev(views(all@).skip(i as int)) == word_after_dev(words_of(text@)),
        decreases all@.len() - i,
    {
        let ghost rest = views(all@).skip(i as int);
        assert(rest[0] == all@[i as int]@ && rest[1] == all@[i + 1]@);
        if same_text(all[i], "dev") {
            return Some(all[i + 1].to_owned());
        }
        assert(rest.skip(1) == views(all@).skip(i + 1));
        i += 1;
    }
    None
}

/// Whether the name is that of the loopback or begins as virtual devices are named.
fn is_virtual_name(name: &str) -> (answer: bool)
    ensures
        answer == is_virtual(name@),
{
    same_text(name, "lo")
        || starts_with(name, "tun")
        || starts_with(name, "tap")
        || starts_with(name, "docker")
        || starts_with(name, "veth")
        || starts_with(name, "vnet")
        || starts_with(name, "virbr")
        || starts_with(name, "br-")
        || starts_with(name, "wg")
        || starts_with(name, "dummy")
        || starts_with(name, "ifb")
        || starts_with(name, "vxlan")
        || starts_with(name, "lxc")
        || starts_with(name, "lxdbr")
        || starts_with(name, "podman")
        || starts_with(name, "cni")
        || starts_with(name, "flannel")
        || starts_with(name, "cali")
        || starts_with(name, "vmnet")
        || starts_with(name, "vboxnet")
        || starts_with(name, "test")
}

/// The device that a line of the kernel's list names.
fn read_device(line: &str) -> (name: Option<&str>)
    ensures
        match name {
            Some(name) => device(line@) == Some(name@),
            None => device(line@) is None,
        },
{
    let chars = chars_of(line);
    let mut colon: usize = 0;
    while colon < chars.len() && chars[colon] != ':'
        invariant
            chars@ == line@,
            colon <= line@.len(),
            forall|i: int| 0 <= i < colon ==> other_than(':')(#[trigger] line@[i]),
        decreases line@.len() - colon,
    {
        colon += 1;
    }
    proof {
        lemma_leading_unique(line@, other_than(':'), colon as nat);
    }
    if colon == chars.len() {
        return None;
    }
    let name = trim(line.substring_char(0, colon));
    assert(line@.subrange(0, colon as int) == line@.take(colon as int));
    if is_virtual_name(name) {
        None
    } else {
        Some(name)
    }
}

/// The first device whose name is neither that of the loopback nor of a virtual device, if
/// `content` is the kernel's list of devices.
fn find_device(content: &str) -> (found: Option<String>)
    ensures
        finds(found, first_device(lines_after(lines_of(content@), 2))),
{
    let rows = lines(content);
    let ghost all = lines_after(lines_of(content@), 2);
    let mut i: usize = 2;
    assert(lines_after(views(rows@), 2) == all);
    while i < rows.len()
        invariant
            views(rows@) == lines_of(content@),
            all == lines_after(lines_of(content@), 2),
            2 <= i,
            first_device(lines_after(views(rows@), i as nat)) == first_device(all),
        decreases rows@.len() - i,
    {
        let ghost rest = lines_after(views(rows@), i as nat);
        assert(rest[0] == rows@[i as int]@);
        match read_device(rows[i]) {
            Some(name) => {
                return Some(name.to_owned());
            },
            None => {},
        }
        assert(rest.skip(1) =~= lines_after(views(rows@), (i + 1) as nat));
        i += 1;
    }
    None
}

/// Returns the interface that the source names, if `text` is what it says.
pub fn find_interface(probe: Probe, text: &str) -> (found: Option<String>)
    ensures
        finds(found, named_interface(probe, text@)),
{
    match probe {
        Probe::RouteTable => find_route_interface(text),
        Probe::DefaultRoute => find_word_after_dev(text),
        Probe::DeviceTable => find_device(text),
    }
}

/// What is known of the interface after a source has answered.
#[derive(Debug)]
pub enum Detection {
    /// The interface has this name.
    Found(String),
    /// This source is to be asked next.
    Next(Probe),
    /// No source named an interface.
    Nothing,
}

/// The model of a `Detection`.
pub enum DetectionView {
    Found(Seq<char>),
    Next(Probe),
    Nothing,
}

impl View for Detection {
    type V = DetectionView;

    open spec fn view(&self) -> DetectionView {
        match self {
            Detection::Found(name) => DetectionView::Found(name@),
            Detection::Next(probe) => DetectionView::Next(*probe),
            Detection::Nothing => DetectionView::Nothing,
        }
    }
}

/// The interface that the outcome of asking a source names.
pub open spec fn answered_interface<E>(probe: Probe, outcome: OutcomeView<E>) -> Option<Seq<char>> {
    match outcome {
        OutcomeView::Failed { .. } => None,
        OutcomeView::Finished(output) => if output.success {
            named_interface(probe, utf8_lossy_text(output.stdout))
        } else {
            None
        },
    }
}

/// What is known after the source has come to this outcome.
pub open spec fn detected<E>(probe: Probe, outcome: OutcomeView<E>) -> DetectionView {
    match answered_interface(probe, outcome) {
        Some(name) => DetectionView::Found(name),
        None => match probe {
            Probe::RouteTable => DetectionView::Next(Probe::DefaultRoute),
            Probe::DefaultRoute => DetectionView::Next(Probe::DeviceTable),
            Probe::DeviceTable => DetectionView::Nothing,
        },
    }
}

/// Automatically detects the physical network interface of the machine, one source at a time.
/// The search starts with `Probe::RouteTable`; each call takes the outcome of asking one
/// source and says what was found or which source to ask next.
pub fn detect_physical_interface<E>(probe: Probe, outcome: Outcome<E>) -> (detection: Detection)
    ensures
        detection@ == detected(probe, outcome@),
{
    let found = match outcome {
        Outcome::Failed { .. } => None,
        Outcome::Finished(output) => if output.success {
            let text = utf8_lossy(output.stdout.as_slice());
            find_interface(probe, text.as_str())
        } else {
            None
        },
    };
    match found {
        Some(name) => Detection::Found(name),
        None => match probe {
            Probe::RouteTable => Detection::Next(Probe::DefaultRoute),
            Probe::DefaultRoute => Detection::Next(Probe::DeviceTable),
            Probe::DeviceTable => Detection::Nothing,
        },
    }
}

/// Every word of a text is a non-empty run of characters without white space.
pub proof fn words_are_solid(text: Seq<char>)
    ensures
        forall|i: int|
            0 <= i < words_of(text).len() ==> {
                &&& (#[trigger] words_of(text)[i]).len() > 0
                &&& forall|j: int|
                    0 <= j < words_of(text)[i].len() ==> solid()(#[trigger] words_of(text)[i][j])
            },
    decreases text.len(),
{
    let rest = trimmed_start(text);
    let n = leading(rest, solid());
    lemma_word_progress(text);
    lemma_leading(rest, solid());
    if rest.len() > 0 {
        words_are_solid(rest.skip(n as int));
        let tail = words_of(rest.skip(n as int));
        assert forall|i: int| 0 <= i < words_of(text).len() implies {
            &&& (#[trigger] words_of(text)[i]).len() > 0
            &&& forall|j: int|
                0 <= j < words_of(text)[i].len() ==> solid()(#[trigger] words_of(text)[i][j])
        } by {
            if i == 0 {
                assert(words_of(text)[0] == rest.take(n as int));
                assert forall|j: int| 0 <= j < n implies solid()(#[trigger] words_of(text)[0][j]) by {
                    assert(rest.take(n as int)[j] == rest[j]);
                }
            } else {
                assert(words_of(text)[i] == tail[i - 1]);
            }
        }
    }
}

/// The routes name interfaces that have a name without white space.
pub proof fn route_interface_has_a_name(probe: Probe, text: Seq<char>)
    requires
        probe != Probe::DeviceTable,
        named_interface(probe, text) is Some,
    ensures
        named_interface(probe, text)->0.len() > 0,
        forall|i: int|
            0 <= i < named_interface(probe, text)->0.len() ==> solid()(
                #[trigger] named_interface(probe, text)->0[i],
            ),
{
    match probe {
        Probe::RouteTable => {
            let rows = lines_after(lines_of(text), 1);
            let routes = default_routes(rows);
            let at = choose|i: int| is_best_route(routes, i);
            lemma_route_names(rows, at);
        },
        _ => {
            words_are_solid(text);
            lemma_word_after_dev(words_of(text));
        },
    }
}

/// A default route names the interface in the first word of a line.
proof fn lemma_route_names(lines: Seq<Seq<char>>, at: int)
    requires
        0 <= at < default_routes(lines).len(),
    ensures
        default_routes(lines)[at].iface.len() > 0,
        forall|i: int|
            0 <= i < default_routes(lines)[at].iface.len() ==> solid()(
                #[trigger] default_routes(lines)[at].iface[i],
            ),
    decreases lines.len(),
{
    let before = default_routes(lines.drop_last());
    if at < before.len() {
        lemma_route_names(lines.drop_last(), at);
    } else {
        words_are_solid(lines.last());
        assert(default_routes(lines)[at].iface == words_of(lines.last())[0]);
    }
}

/// The word behind `dev` is one of the words.
proof fn lemma_word_after_dev(words: Seq<Seq<char>>)
    ensures
        word_after_dev(words) is Some ==> exists|i: int|
            0 <= i < words.len() && word_after_dev(words)->0 == #[trigger] words[i],
    decreases words.len(),
{
    if words.len() >= 2 {
        if words[0] == "dev"@ {
            assert(word_after_dev(words)->0 == words[1]);
        } else {
            let rest = words.skip(1);
            lemma_word_after_dev(rest);
            if word_after_dev(rest) is Some {
                let i = choose|i: int| 0 <= i < rest.len() && word_after_dev(rest)->0 == rest[i];
                assert(rest[i] == words[i + 1]);
            }
        }
    }
}

/// The list of devices never yields the loopback or a device whose name begins as those of
/// virtual devices do.
pub proof fn device_is_physical(text: Seq<char>)
    ensures
        match named_interface(Probe::DeviceTable, text) {
            Some(name) => !is_virtual(name),
            None => true,
        },
{
    lemma_first_device(lines_after(lines_of(text), 2));
}

/// The first device of the lines has neither the name of the loopback nor of a virtual device.
proof fn lemma_first_device(lines: Seq<Seq<char>>)
    ensures
        match first_device(lines) {
            Some(name) => !is_virtual(name),
            None => true,
        },
    decreases lines.len(),
{
    if lines.len() > 0 && device(lines[0]) is None {
        lemma_first_device(lines.skip(1));
    }
}

} // verus!
