//! What is read out of listings, and how the interface is found.

use vstd::prelude::*;
use crate::command::{utf8_lossy_text, OutcomeView};
use crate::interface::{
    answered_interface, default_route, default_routes, detected, device, finds, first_device,
    is_best_route, is_virtual, lines_after, named_interface, route_interface, word_after_dev,
    DetectionView, Probe, Route,
};
use crate::listing::{
    accepted_handles, chain_is_bare, chosen_handles, is_chain_frame, is_table_frame, listed_rule,
    listed_rules, may_say, table_is_bare, ListedRule,
};
use crate::number::{decimal, decimal_round_trip, lemma_decimal_chars, numeral_value, Radix};
use crate::reading_laws::{
    is_blank, is_tight, parts_are_found, trimming_leaves_the_middle, trimming_takes_off_white_space,
};
use crate::text::{
    begins_with, contains, is_last_occurrence, last_occurrence, leading, lemma_last_occurrence,
    lemma_leading, lines_of, occurs_at, other_than, trimmed, words_of,
};

verus! {

// ---- the rules of a listing ----

/// A line that shows a rule and its handle is read as that rule with that handle, whatever white
/// space is around; a line that opens a block is read as none.
pub proof fn listed_rules_are_read(
    before: Seq<char>,
    text: Seq<char>,
    handle: u64,
    after: Seq<char>,
)
    requires
        is_blank(before),
        is_blank(after),
        is_tight(text),
    ensures
        listed_rule(before + (text + " # handle "@ + decimal(handle as nat)) + after) == (if text.last()
            == '{' {
            None
        } else {
            Some(ListedRule { text, handle })
        }),
{
    let number = decimal(handle as nat);
    let shown = text + " # handle "@ + number;
    let line = before + shown + after;
    reveal_strlit(" # handle ");
    reveal_strlit("# handle ");
    lemma_decimal_chars(handle as nat);
    assert(shown[0] == text[0]);
    assert(shown.last() == number.last());
    trimming_takes_off_white_space(before, shown, after);
    let at = (text.len() + 1) as int;
    let mark = "# handle "@;
    assert(shown.subrange(at, at + 9) =~= mark);
    assert(occurs_at(shown, mark, at));
    assert forall|later: int| at < later implies !occurs_at(shown, mark, later) by {
        if occurs_at(shown, mark, later) {
            assert(shown.subrange(later, later + 9)[0] == shown[later]);
            assert(shown[later] == '#');
            if later < text.len() + 10 {
                assert(shown[later] == " # handle "@[later - text.len()]);
            } else {
                assert(shown[later] == number[later - text.len() - 10]);
            }
        }
    }
    assert(is_last_occurrence(shown, mark, at));
    lemma_last_occurrence(shown, mark);
    let chosen = last_occurrence(shown, mark)->0;
    assert(is_last_occurrence(shown, mark, chosen));
    assert(chosen == at);
    let none = Seq::<char>::empty();
    assert(shown.take(at) =~= none + text + seq![' ']);
    trimming_takes_off_white_space(none, text, seq![' ']);
    assert(shown.skip(at + 9) =~= none + number + none);
    trimming_takes_off_white_space(none, number, none);
    decimal_round_trip(handle as nat, u64::MAX as nat);
}

/// A line that is read as a rule shows the text of the rule, then `# handle`, and behind its last
/// place the number of the handle; it does not open a block.
pub proof fn read_rules_are_listed(line: Seq<char>)
    ensures
        match listed_rule(line) {
            Some(rule) => {
                &&& contains(line, "# handle "@)
                &&& rule.text.len() > 0 ==> is_tight(rule.text) && rule.text.last() != '{'
                &&& contains(line, rule.text)
            },
            None => true,
        },
        !contains(trimmed(line), "# handle "@) ==> listed_rule(line) is None,
{
    let shown = trimmed(line);
    let mark = "# handle "@;
    reveal_strlit("# handle ");
    lemma_last_occurrence(shown, mark);
    if listed_rule(line) is Some {
        let at = last_occurrence(shown, mark)->0;
        let text = trimmed(shown.take(at));
        let (from, to) = trimming_leaves_the_middle(line);
        let (start, end) = trimming_leaves_the_middle(shown.take(at));
        assert(line.subrange(from + at, from + at + 9) =~= shown.subrange(at, at + 9));
        assert(occurs_at(line, mark, from + at));
        assert(line.subrange(from + start, from + start + text.len()) =~= text);
        assert(occurs_at(line, text, from + start));
    }
}

/// The rules of a listing are those of its lines, in order.
pub proof fn listings_are_read_line_by_line(lines: Seq<Seq<char>>, line: Seq<char>)
    ensures
        listed_rules(Seq::empty()).len() == 0,
        listed_rules(lines.push(line)) == (match listed_rule(line) {
            Some(rule) => listed_rules(lines).push(rule),
            None => listed_rules(lines),
        }),
{
    assert(lines.push(line).drop_last() =~= lines);
}

/// The handles that are chosen are those of the rules with a verdict for them, in order.
pub proof fn handles_are_chosen_one_by_one(
    rules: Seq<ListedRule>,
    verdicts: Seq<bool>,
    rule: ListedRule,
    verdict: bool,
)
    ensures
        chosen_handles(Seq::empty(), Seq::empty()).len() == 0,
        chosen_handles(rules.push(rule), verdicts.push(verdict)) == (if verdict {
            chosen_handles(rules, verdicts).push(rule.handle)
        } else {
            chosen_handles(rules, verdicts)
        }),
{
    assert(rules.push(rule).drop_last() =~= rules);
    assert(verdicts.push(verdict).drop_last() =~= verdicts);
}

/// The handle is that of a rule whose text is accepted.
pub open spec fn belongs_to_a_rule(
    rules: Seq<ListedRule>,
    decision: spec_fn(Seq<char>) -> bool,
    handle: u64,
) -> bool {
    exists|i: int|
        0 <= i < rules.len() && decision(rules[i].text) && (#[trigger] rules[i]).handle == handle
}

/// Where a predicate is decided by the text alone, the handles that it accepts are those of all
/// rules whose text it accepts, and of no others, in order.
pub proof fn predicates_decide<F: Fn(&str) -> bool>(
    predicate: F,
    decision: spec_fn(Seq<char>) -> bool,
    rules: Seq<ListedRule>,
    handles: Seq<u64>,
)
    requires
        forall|s: &str, verdict: bool| #[trigger]
            call_ensures(predicate, (s,), verdict) ==> verdict == decision(s@),
        accepted_handles(predicate, rules, handles),
    ensures
        forall|i: int| #![trigger rules[i]]
            0 <= i < rules.len() && decision(rules[i].text) ==> handles.contains(rules[i].handle),
        forall|k: int|
            0 <= k < handles.len() ==> belongs_to_a_rule(rules, decision, #[trigger] handles[k]),
        (forall|i: int| 0 <= i < rules.len() ==> decision((#[trigger] rules[i]).text)) ==> handles
            == rules.map_values(|rule: ListedRule| rule.handle),
{
    let verdicts = choose|verdicts: Seq<bool>|
        {
            &&& verdicts.len() == rules.len()
            &&& forall|i: int|
                0 <= i < rules.len() ==> may_say(predicate, rules[i].text, #[trigger] verdicts[i])
            &&& handles == #[trigger] chosen_handles(rules, verdicts)
        };
    assert forall|i: int| 0 <= i < rules.len() implies #[trigger] verdicts[i] == decision(
        rules[i].text,
    ) by {
        assert(may_say(predicate, rules[i].text, verdicts[i]));
    }
    lemma_chosen(rules, verdicts);
    assert forall|i: int| #![trigger rules[i]]
        0 <= i < rules.len() && decision(rules[i].text) implies handles.contains(
        rules[i].handle,
    ) by {
        assert(verdicts[i]);
    }
    assert forall|k: int| 0 <= k < handles.len() implies belongs_to_a_rule(
        rules,
        decision,
        #[trigger] handles[k],
    ) by {
        assert(is_chosen_from(rules, verdicts, handles[k]));
        let i = choose|i: int|
            0 <= i < rules.len() && verdicts[i] && (#[trigger] rules[i]).handle == handles[k];
        assert(verdicts[i] == decision(rules[i].text));
    }
    if forall|i: int| 0 <= i < rules.len() ==> decision((#[trigger] rules[i]).text) {
        assert forall|i: int| 0 <= i < rules.len() implies #[trigger] verdicts[i] by {
            assert(decision(rules[i].text));
        }
        lemma_all_chosen(rules, verdicts);
    }
}

/// The handle is that of a rule with a verdict for it.
spec fn is_chosen_from(rules: Seq<ListedRule>, verdicts: Seq<bool>, handle: u64) -> bool {
    exists|i: int| 0 <= i < rules.len() && verdicts[i] && (#[trigger] rules[i]).handle == handle
}

/// Which handles are chosen.
proof fn lemma_chosen(rules: Seq<ListedRule>, verdicts: Seq<bool>)
    requires
        verdicts.len() == rules.len(),
    ensures
        forall|i: int| #![trigger verdicts[i]]
            0 <= i < rules.len() && verdicts[i] ==> chosen_handles(rules, verdicts).contains(
                rules[i].handle,
            ),
        forall|k: int|
            0 <= k < chosen_handles(rules, verdicts).len() ==> is_chosen_from(
                rules,
                verdicts,
                #[trigger] chosen_handles(rules, verdicts)[k],
            ),
    decreases rules.len(),
{
    if rules.len() > 0 {
        let fewer = rules.drop_last();
        let before = chosen_handles(fewer, verdicts.drop_last());
        let all = chosen_handles(rules, verdicts);
        lemma_chosen(fewer, verdicts.drop_last());
        assert forall|i: int| #![trigger verdicts[i]]
            0 <= i < rules.len() && verdicts[i] implies all.contains(rules[i].handle) by {
            if i < fewer.len() {
                assert(verdicts.drop_last()[i]);
                assert(before.contains(fewer[i].handle));
                let k = choose|k: int| 0 <= k < before.len() && before[k] == fewer[i].handle;
                assert(all[k] == rules[i].handle);
            } else {
                assert(all[all.len() - 1] == rules[i].handle);
            }
        }
        assert forall|k: int| 0 <= k < all.len() implies is_chosen_from(
            rules,
            verdicts,
            #[trigger] all[k],
        ) by {
            if k < before.len() {
                assert(all[k] == before[k]);
                assert(is_chosen_from(fewer, verdicts.drop_last(), before[k]));
                let i = choose|i: int|
                    0 <= i < fewer.len() && verdicts.drop_last()[i] && (#[trigger] fewer[i]).handle
                        == before[k];
                assert(rules[i].handle == all[k] && verdicts[i]);
            } else {
                assert(rules[rules.len() - 1].handle == all[k]);
            }
        }
    }
}

/// If all are chosen, all handles are.
proof fn lemma_all_chosen(rules: Seq<ListedRule>, verdicts: Seq<bool>)
    requires
        verdicts.len() == rules.len(),
        forall|i: int| 0 <= i < rules.len() ==> #[trigger] verdicts[i],
    ensures
        chosen_handles(rules, verdicts) == rules.map_values(|rule: ListedRule| rule.handle),
    decreases rules.len(),
{
    if rules.len() > 0 {
        assert(verdicts[rules.len() - 1]);
        assert forall|i: int| 0 <= i < rules.drop_last().len() implies #[trigger] verdicts.drop_last()[i] by {
            assert(verdicts[i]);
        }
        lemma_all_chosen(rules.drop_last(), verdicts.drop_last());
    }
    assert(chosen_handles(rules, verdicts) =~= rules.map_values(|rule: ListedRule| rule.handle));
}

// ---- what is empty ----

/// The line shows this behind the white space at its start.
pub open spec fn shows(line: Seq<char>, start: Seq<char>) -> bool {
    start.is_prefix_of(trimmed(line))
}

/// The listing of an empty chain shows no line but those that open or close a block or declare the
/// type of the chain; the listing of an empty table shows no line but those that open or close it.
/// Blank lines do not count. Anything else is something that is left.
pub proof fn only_frames_are_empty(listing: Seq<char>)
    ensures
        chain_is_bare(listing) <==> forall|i: int|
            0 <= i < lines_of(listing).len() ==> {
                let line = #[trigger] lines_of(listing)[i];
                ||| trimmed(line).len() == 0
                ||| trimmed(line) == "}"@
                ||| shows(line, "table "@)
                ||| shows(line, "chain "@)
                ||| shows(line, "type "@)
            },
        table_is_bare(listing) <==> forall|i: int|
            0 <= i < lines_of(listing).len() ==> {
                let line = #[trigger] lines_of(listing)[i];
                ||| trimmed(line).len() == 0
                ||| trimmed(line) == "}"@
                ||| shows(line, "table "@)
            },
{
    let none = Seq::<char>::empty();
    assert forall|i: int| 0 <= i < lines_of(listing).len() implies is_chain_frame(
        #[trigger] lines_of(listing)[i],
    ) == {
        let line = lines_of(listing)[i];
        ||| trimmed(line).len() == 0
        ||| trimmed(line) == "}"@
        ||| shows(line, "table "@)
        ||| shows(line, "chain "@)
        ||| shows(line, "type "@)
    } && is_table_frame(lines_of(listing)[i]) == {
        let line = lines_of(listing)[i];
        ||| trimmed(line).len() == 0
        ||| trimmed(line) == "}"@
        ||| shows(line, "table "@)
    } by {
        let shown = trimmed(lines_of(listing)[i]);
        parts_are_found(none, "table "@, shown);
        parts_are_found(none, "chain "@, shown);
        parts_are_found(none, "type "@, shown);
    }
}

/// Where a listing shows one of the rules of a tunnel, neither its chain nor its table is empty;
/// where it shows a chain, its table is not.
pub proof fn what_holds_something_is_not_empty(listing: Seq<char>, i: int)
    requires
        0 <= i < lines_of(listing).len(),
    ensures
        shows(lines_of(listing)[i], "iifname "@) ==> !chain_is_bare(listing) && !table_is_bare(
            listing,
        ),
        shows(lines_of(listing)[i], "tcp dport "@) ==> !chain_is_bare(listing) && !table_is_bare(
            listing,
        ),
        shows(lines_of(listing)[i], "chain "@) ==> !table_is_bare(listing),
{
    let line = lines_of(listing)[i];
    let shown = trimmed(line);
    let none = Seq::<char>::empty();
    reveal_strlit("iifname ");
    reveal_strlit("tcp dport ");
    reveal_strlit("chain ");
    reveal_strlit("table ");
    reveal_strlit("type ");
    reveal_strlit("}");
    parts_are_found(none, "table "@, shown);
    parts_are_found(none, "chain "@, shown);
    parts_are_found(none, "type "@, shown);
    if shows(line, "table "@) {
        assert(shown.subrange(0, 6)[1] == shown[1]);
        assert(shown[1] == 'a');
    }
    if shows(line, "chain "@) {
        assert(shown.subrange(0, 6)[0] == shown[0]);
        assert(shown[0] == 'c');
    }
    if shows(line, "type "@) {
        assert(shown.subrange(0, 5)[1] == shown[1]);
        assert(shown[1] == 'y');
    }
    if shows(line, "iifname "@) {
        assert(shown.subrange(0, 8)[0] == shown[0]);
        assert(shown[0] == 'i');
        assert(shown.subrange(0, 8)[1] == shown[1]);
        assert(shown[1] == 'i');
        assert(!is_chain_frame(line) && !is_table_frame(line));
    }
    if shows(line, "tcp dport "@) {
        assert(shown.subrange(0, 10)[1] == shown[1]);
        assert(shown[1] == 'c');
        assert(shown.subrange(0, 10)[0] == shown[0]);
        assert(shown[0] == 't');
        assert(!is_chain_frame(line) && !is_table_frame(line));
    }
    if shows(line, "chain "@) {
        assert(!is_table_frame(line));
    }
}

// ---- the interface ----

/// What is found is what a source names: a name for a name, and nothing for nothing.
pub proof fn found_is_what_is_named(found: Option<String>, model: Option<Seq<char>>)
    ensures
        finds(found, model) <==> (found is None <==> model is None) && (found is Some ==> model
            == Some(found->0@)),
{
}

/// The line at index `i` of the table of routes shows a default route, through the interface and
/// with the metric: destination and mask are zero, and a metric that is no number counts as zero.
/// The first line is the heading.
pub open spec fn shows_default_route(
    lines: Seq<Seq<char>>,
    i: int,
    iface: Seq<char>,
    metric: nat,
) -> bool {
    let fields = words_of(lines[i]);
    &&& 1 <= i < lines.len()
    &&& fields.len() >= 8
    &&& fields[0] == iface
    &&& fields[1] == "00000000"@ && fields[7] == "00000000"@
    &&& match numeral_value(fields[6], Radix::Ten, 0xffff_ffff) {
        Ok(value) => metric == value,
        Err(_) => metric == 0,
    }
}

/// Where the default routes of the lines come from.
proof fn lemma_route_source(lines: Seq<Seq<char>>, k: int) -> (i: int)
    requires
        0 <= k < default_routes(lines).len(),
    ensures
        0 <= i < lines.len(),
        default_route(lines[i]) == Some(default_routes(lines)[k]),
        default_routes(lines.take(i)).len() == k,
    decreases lines.len(),
{
    let before = default_routes(lines.drop_last());
    if k < before.len() {
        let i = lemma_route_source(lines.drop_last(), k);
        assert(lines.drop_last().take(i) =~= lines.take(i));
        i
    } else {
        assert(lines.take(lines.len() - 1) =~= lines.drop_last());
        lines.len() - 1
    }
}

/// Every line with a default route is among the default routes of the lines, in order.
proof fn lemma_route_place(lines: Seq<Seq<char>>, i: int)
    requires
        0 <= i < lines.len(),
        default_route(lines[i]) is Some,
    ensures
        default_routes(lines.take(i)).len() < default_routes(lines).len(),
        default_routes(lines)[default_routes(lines.take(i)).len() as int] == default_route(
            lines[i],
        )->0,
        forall|k: int|
            0 <= k < default_routes(lines.take(i)).len() ==> #[trigger] default_routes(lines)[k]
                == default_routes(lines.take(i))[k],
    decreases lines.len(),
{
    let before = lines.drop_last();
    if i < before.len() {
        lemma_route_place(before, i);
        assert(before.take(i) =~= lines.take(i));
    } else {
        assert(lines.take(i) =~= before);
    }
}

/// The number of default routes does not shrink with more lines.
proof fn lemma_routes_grow(lines: Seq<Seq<char>>, i: int, j: int)
    requires
        0 <= i <= j <= lines.len(),
    ensures
        default_routes(lines.take(i)).len() <= default_routes(lines.take(j)).len(),
        i < j && default_route(lines[i]) is Some ==> default_routes(lines.take(i)).len()
            < default_routes(lines.take(j)).len(),
    decreases j - i,
{
    if i < j {
        assert(lines.take(i + 1).drop_last() =~= lines.take(i));
        assert(lines.take(i + 1).last() == lines[i]);
        lemma_routes_grow(lines, i + 1, j);
    }
}

/// The line shows a default route with a metric that counts, and no other default route has a
/// lower one, nor the same further up.
pub open spec fn is_first_of_the_best(
    lines: Seq<Seq<char>>,
    i: int,
    name: Seq<char>,
    metric: nat,
) -> bool {
    &&& shows_default_route(lines, i, name, metric)
    &&& metric < 0xffff_ffff
    &&& forall|j: int, other: Seq<char>, value: nat| #[trigger]
        shows_default_route(lines, j, other, value) ==> metric <= value && (j < i ==> metric
            < value)
}

/// The name is that of the interface of the best default route.
pub open spec fn is_best_name(lines: Seq<Seq<char>>, name: Seq<char>) -> bool {
    exists|i: int, metric: nat| is_first_of_the_best(lines, i, name, metric)
}

/// The routes name the interface of the default route with the lowest metric, of several the
/// first; a route with the highest metric there can be does not count, and nothing is named only
/// where there is no other.
pub proof fn best_route_names_the_interface(content: Seq<char>)
    ensures
        match named_interface(Probe::RouteTable, content) {
            Some(name) => is_best_name(lines_of(content), name),
            None => forall|j: int, other: Seq<char>, value: nat| #[trigger]
                shows_default_route(lines_of(content), j, other, value) ==> value >= 0xffff_ffff,
        },
{
    let lines = lines_of(content);
    let rows = lines_after(lines, 1);
    let routes = default_routes(rows);
    assert forall|j: int, other: Seq<char>, value: nat| #[trigger]
        shows_default_route(lines, j, other, value) implies rows.len() == lines.len() - 1 && rows[j
        - 1] == lines[j] && default_route(rows[j - 1]) == Some(
        Route { iface: other, metric: value },
    ) by {}
    if exists|i: int| is_best_route(routes, i) {
        let k = choose|i: int| is_best_route(routes, i);
        let at = lemma_route_source(rows, k);
        let metric = routes[k].metric;
        let name = routes[k].iface;
        assert(rows[at] == lines[at + 1]);
        assert(shows_default_route(lines, at + 1, name, metric));
        assert forall|j: int, other: Seq<char>, value: nat| #[trigger]
            shows_default_route(lines, j, other, value) implies metric <= value && (j < at + 1
            ==> metric < value) by {
            lemma_route_place(rows, j - 1);
            let place = default_routes(rows.take(j - 1)).len() as int;
            assert(routes[place].metric == value);
            if j < at + 1 {
                lemma_routes_grow(rows, j - 1, at);
                assert(place < k);
            }
        }
        assert(is_first_of_the_best(lines, at + 1, name, metric));
        assert(route_interface(content) == Some(name));
        assert(is_best_name(lines, name));
    } else {
        assert forall|j: int, other: Seq<char>, value: nat| #[trigger]
            shows_default_route(lines, j, other, value) implies value >= 0xffff_ffff by {
            lemma_route_place(rows, j - 1);
            let place = default_routes(rows.take(j - 1)).len() as int;
            if value < 0xffff_ffff {
                let best = lemma_best_exists(routes, place);
                assert(is_best_route(routes, best));
            }
        }
    }
}

/// Of routes of which one counts, one is the best.
proof fn lemma_best_exists(routes: Seq<Route>, one: int) -> (best: int)
    requires
        0 <= one < routes.len(),
        routes[one].metric < u32::MAX,
    ensures
        is_best_route(routes, best),
    decreases routes[one].metric, one,
{
    if forall|j: int| 0 <= j < routes.len() ==> routes[one].metric <= (#[trigger] routes[j]).metric {
        if forall|j: int| 0 <= j < one ==> routes[one].metric < (#[trigger] routes[j]).metric {
            one
        } else {
            let j = choose|j: int|
                0 <= j < one && !(routes[one].metric < (#[trigger] routes[j]).metric);
            lemma_best_exists(routes, j)
        }
    } else {
        let j = choose|j: int|
            0 <= j < routes.len() && !(routes[one].metric <= (#[trigger] routes[j]).metric);
        lemma_best_exists(routes, j)
    }
}

/// The default route names the interface behind the first word `dev` that has a word behind it,
/// and none only where there is no such word.
pub proof fn default_route_names_the_interface(text: Seq<char>)
    ensures
        match named_interface(Probe::DefaultRoute, text) {
            Some(name) => exists|i: int|
                {
                    &&& 0 <= i < words_of(text).len() - 1
                    &&& #[trigger] words_of(text)[i] == "dev"@
                    &&& words_of(text)[i + 1] == name
                    &&& forall|j: int| 0 <= j < i ==> #[trigger] words_of(text)[j] != "dev"@
                },
            None => forall|i: int|
                0 <= i < words_of(text).len() - 1 ==> #[trigger] words_of(text)[i] != "dev"@,
        },
{
    lemma_first_dev(words_of(text));
}

/// The word behind the first `dev`.
proof fn lemma_first_dev(words: Seq<Seq<char>>)
    ensures
        match word_after_dev(words) {
            Some(name) => exists|i: int|
                {
                    &&& 0 <= i < words.len() - 1
                    &&& #[trigger] words[i] == "dev"@
                    &&& words[i + 1] == name
                    &&& forall|j: int| 0 <= j < i ==> #[trigger] words[j] != "dev"@
                },
            None => forall|i: int| 0 <= i < words.len() - 1 ==> #[trigger] words[i] != "dev"@,
        },
    decreases words.len(),
{
    if words.len() >= 2 {
        if words[0] == "dev"@ {
            let first: int = 0;
            assert(words[first] == "dev"@ && words[first + 1] == words[1]);
        } else {
            let rest = words.skip(1);
            lemma_first_dev(rest);
            match word_after_dev(rest) {
                Some(name) => {
                    let i = choose|i: int|
                        {
                            &&& 0 <= i < rest.len() - 1
                            &&& #[trigger] rest[i] == "dev"@
                            &&& rest[i + 1] == name
                            &&& forall|j: int| 0 <= j < i ==> #[trigger] rest[j] != "dev"@
                        };
                    assert(words[i + 1] == "dev"@ && words[(i + 1) + 1] == name);
                    assert forall|j: int| 0 <= j < i + 1 implies #[trigger] words[j] != "dev"@ by {
                        if j > 0 {
                            assert(rest[j - 1] == words[j]);
                        }
                    }
                },
                None => {
                    assert forall|i: int| 0 <= i < words.len() - 1 implies #[trigger] words[i]
                        != "dev"@ by {
                        if i > 0 {
                            assert(rest[i - 1] == words[i]);
                        }
                    }
                },
            }
        }
    }
}

/// The line names the device before its first colon, without the white space around the name.
pub open spec fn names_device(line: Seq<char>, name: Seq<char>) -> bool {
    exists|colon: int|
        {
            &&& 0 <= colon < line.len()
            &&& #[trigger] line[colon] == ':'
            &&& forall|i: int| 0 <= i < colon ==> #[trigger] line[i] != ':'
            &&& name == trimmed(line.take(colon))
        }
}

/// What a line of the list of devices is read as.
proof fn lemma_device(line: Seq<char>)
    ensures
        match device(line) {
            Some(name) => names_device(line, name) && !is_virtual(name),
            None => forall|name: Seq<char>| #[trigger] names_device(line, name) ==> is_virtual(
                name,
            ),
        },
{
    let n = leading(line, other_than(':'));
    lemma_leading(line, other_than(':'));
    assert forall|i: int| 0 <= i < n implies #[trigger] line[i] != ':' by {
        assert(other_than(':')(line[i]));
    }
    if n < line.len() {
        assert(!other_than(':')(line[n as int]));
        assert(line[n as int] == ':');
        assert(names_device(line, trimmed(line.take(n as int))));
    }
    assert forall|name: Seq<char>| #[trigger] names_device(line, name) implies n < line.len()
        && name == trimmed(line.take(n as int)) by {
        let colon = choose|colon: int|
            {
                &&& 0 <= colon < line.len()
                &&& #[trigger] line[colon] == ':'
                &&& forall|i: int| 0 <= i < colon ==> #[trigger] line[i] != ':'
                &&& name == trimmed(line.take(colon))
            };
        if n < colon {
            assert(line[n as int] != ':');
        }
        if colon < n {
            assert(line[colon] != ':');
        }
    }
}

/// The list of devices names the first device of its lines, behind the two of the heading, that is
/// no virtual one; and none only where there is none.
pub proof fn first_device_names_the_interface(text: Seq<char>)
    ensures
        match named_interface(Probe::DeviceTable, text) {
            Some(name) => !is_virtual(name) && exists|i: int|
                {
                    &&& 2 <= i < lines_of(text).len()
                    &&& names_device(#[trigger] lines_of(text)[i], name)
                    &&& forall|j: int, other: Seq<char>|
                        2 <= j < i && #[trigger] names_device(lines_of(text)[j], other)
                            ==> is_virtual(other)
                },
            None => forall|j: int, other: Seq<char>|
                2 <= j < lines_of(text).len() && #[trigger] names_device(lines_of(text)[j], other)
                    ==> is_virtual(other),
        },
{
    let lines = lines_of(text);
    let rows = lines_after(lines, 2);
    lemma_first_device_at(rows);
    assert forall|j: int| 2 <= j < lines.len() implies rows.len() == lines.len() - 2
        && #[trigger] lines[j] == rows[j - 2] by {}
    match first_device(rows) {
        Some(name) => {
            let i = choose|i: int|
                {
                    &&& 0 <= i < rows.len()
                    &&& names_device(#[trigger] rows[i], name)
                    &&& forall|j: int, other: Seq<char>|
                        0 <= j < i && #[trigger] names_device(rows[j], other) ==> is_virtual(other)
                };
            assert(rows[i] == lines[i + 2]);
            assert forall|j: int, other: Seq<char>|
                2 <= j < i + 2 && #[trigger] names_device(lines[j], other) implies is_virtual(
                other,
            ) by {
                assert(lines[j] == rows[j - 2]);
                assert(names_device(rows[j - 2], other));
            }
        },
        None => {
            assert forall|j: int, other: Seq<char>|
                2 <= j < lines.len() && #[trigger] names_device(lines[j], other) implies is_virtual(
                other,
            ) by {
                assert(lines[j] == rows[j - 2]);
                assert(names_device(rows[j - 2], other));
            }
        },
    }
}

/// The first device of the lines.
proof fn lemma_first_device_at(rows: Seq<Seq<char>>)
    ensures
        match first_device(rows) {
            Some(name) => !is_virtual(name) && exists|i: int|
                {
                    &&& 0 <= i < rows.len()
                    &&& names_device(#[trigger] rows[i], name)
                    &&& forall|j: int, other: Seq<char>|
                        0 <= j < i && #[trigger] names_device(rows[j], other) ==> is_virtual(other)
                },
            None => forall|j: int, other: Seq<char>|
                0 <= j < rows.len() && #[trigger] names_device(rows[j], other) ==> is_virtual(
                    other,
                ),
        },
    decreases rows.len(),
{
    if rows.len() > 0 {
        lemma_device(rows[0]);
        match device(rows[0]) {
            Some(name) => {
                assert(names_device(rows[0], name));
            },
            None => {
                let rest = rows.skip(1);
                lemma_first_device_at(rest);
                match first_device(rest) {
                    Some(name) => {
                        let i = choose|i: int|
                            {
                                &&& 0 <= i < rest.len()
                                &&& names_device(#[trigger] rest[i], name)
                                &&& forall|j: int, other: Seq<char>|
                                    0 <= j < i && #[trigger] names_device(rest[j], other)
                                        ==> is_virtual(other)
                            };
                        assert(rest[i] == rows[i + 1]);
                        assert forall|j: int, other: Seq<char>|
                            0 <= j < i + 1 && #[trigger] names_device(rows[j], other) implies
                            is_virtual(other) by {
                            if j > 0 {
                                assert(rest[j - 1] == rows[j]);
                                assert(names_device(rest[j - 1], other));
                            }
                        }
                    },
                    None => {
                        assert forall|j: int, other: Seq<char>|
                            0 <= j < rows.len() && #[trigger] names_device(rows[j], other) implies
                            is_virtual(other) by {
                            if j > 0 {
                                assert(rest[j - 1] == rows[j]);
                                assert(names_device(rest[j - 1], other));
                            }
                        }
                    },
                }
            },
        }
    }
}

/// The loopback and the devices of tunnels, containers and tests are virtual, whatever follows in
/// their names; a device whose name begins as those of network cards do is not.
pub proof fn virtual_devices_are_told_by_their_names(more: Seq<char>)
    ensures
        is_virtual("lo"@),
        is_virtual("tun"@ + more),
        is_virtual("docker"@ + more),
        is_virtual("veth"@ + more),
        is_virtual("br-"@ + more),
        is_virtual("test"@ + more),
        !is_virtual("eth"@ + more),
        !is_virtual("en"@ + more),
        !is_virtual("wl"@ + more),
        !is_virtual("ww"@ + more),
        !is_virtual("usb"@ + more),
{
    let none = Seq::<char>::empty();
    parts_are_found(none, "tun"@, more);
    parts_are_found(none, "docker"@, more);
    parts_are_found(none, "veth"@, more);
    parts_are_found(none, "br-"@, more);
    parts_are_found(none, "test"@, more);
    reveal_strlit("eth");
    reveal_strlit("en");
    reveal_strlit("wl");
    reveal_strlit("ww");
    reveal_strlit("usb");
    lemma_not_virtual("eth"@ + more);
    lemma_not_virtual("en"@ + more);
    lemma_not_virtual("wl"@ + more);
    lemma_not_virtual("ww"@ + more);
    lemma_not_virtual("usb"@ + more);
}

/// How the names of virtual devices begin.
pub open spec fn virtual_beginnings() -> Set<Seq<char>> {
    set![
        "tun"@, "tap"@, "docker"@, "veth"@, "vnet"@, "virbr"@, "br-"@, "wg"@, "dummy"@, "ifb"@,
        "vxlan"@, "lxc"@, "lxdbr"@, "podman"@, "cni"@, "flannel"@, "cali"@, "vmnet"@, "vboxnet"@,
        "test"@
    ]
}

/// A device is virtual only if it is the loopback or its name begins as those of virtual devices
/// do.
pub proof fn no_other_device_is_virtual(name: Seq<char>)
    ensures
        is_virtual(name) <==> name == "lo"@ || exists|beginning: Seq<char>|
            virtual_beginnings().contains(beginning) && #[trigger] beginning.is_prefix_of(name),
{
    assert forall|beginning: Seq<char>| #[trigger]
        beginning.is_prefix_of(name) <==> begins_with(name, beginning) by {
        parts_are_found(Seq::empty(), beginning, name);
    }
    if is_virtual(name) && name != "lo"@ {
        let known = virtual_beginnings();
        assert(known.contains("tun"@) && known.contains("tap"@) && known.contains("docker"@)
            && known.contains("veth"@) && known.contains("vnet"@) && known.contains("virbr"@)
            && known.contains("br-"@) && known.contains("wg"@) && known.contains("dummy"@)
            && known.contains("ifb"@) && known.contains("vxlan"@) && known.contains("lxc"@)
            && known.contains("lxdbr"@) && known.contains("podman"@) && known.contains("cni"@)
            && known.contains("flannel"@) && known.contains("cali"@) && known.contains("vmnet"@)
            && known.contains("vboxnet"@) && known.contains("test"@));
        assert("tun"@.is_prefix_of(name) || "tap"@.is_prefix_of(name) || "docker"@.is_prefix_of(
            name,
        ) || "veth"@.is_prefix_of(name) || "vnet"@.is_prefix_of(name) || "virbr"@.is_prefix_of(
            name,
        ) || "br-"@.is_prefix_of(name) || "wg"@.is_prefix_of(name) || "dummy"@.is_prefix_of(name)
            || "ifb"@.is_prefix_of(name) || "vxlan"@.is_prefix_of(name) || "lxc"@.is_prefix_of(name)
            || "lxdbr"@.is_prefix_of(name) || "podman"@.is_prefix_of(name) || "cni"@.is_prefix_of(
            name,
        ) || "flannel"@.is_prefix_of(name) || "cali"@.is_prefix_of(name) || "vmnet"@.is_prefix_of(
            name,
        ) || "vboxnet"@.is_prefix_of(name) || "test"@.is_prefix_of(name));
    }
}

/// The virtual devices have other first letters.
proof fn lemma_not_virtual(name: Seq<char>)
    requires
        name.len() >= 2,
        name[0] == 'e' || name[0] == 'u' || (name[0] == 'w' && name[1] != 'g'),
    ensures
        !is_virtual(name),
{
    reveal_strlit("lo");
    reveal_strlit("tun");
    reveal_strlit("tap");
    reveal_strlit("docker");
    reveal_strlit("veth");
    reveal_strlit("vnet");
    reveal_strlit("virbr");
    reveal_strlit("br-");
    reveal_strlit("wg");
    reveal_strlit("dummy");
    reveal_strlit("ifb");
    reveal_strlit("vxlan");
    reveal_strlit("lxc");
    reveal_strlit("lxdbr");
    reveal_strlit("podman");
    reveal_strlit("cni");
    reveal_strlit("flannel");
    reveal_strlit("cali");
    reveal_strlit("vmnet");
    reveal_strlit("vboxnet");
    reveal_strlit("test");
    assert forall|part: Seq<char>|
        part.len() >= 2 && #[trigger] begins_with(name, part) implies part[0] == name[0] && part[1]
        == name[1] by {
        let start = name.subrange(0, part.len() as int);
        assert(start[0] == name[0] && start[1] == name[1]);
    }
    assert(name != "lo"@) by {
        assert("lo"@[0] == 'l');
    }
}

/// What a source is taken to name: nothing if it could not be asked or reports a failure, else
/// what it says. The search goes from the routes to the default route, from there to the devices,
/// and ends there; it goes on only where a source names nothing.
pub proof fn sources_are_asked_in_turn<E>(probe: Probe, outcome: OutcomeView<E>)
    ensures
        match outcome {
            OutcomeView::Failed { .. } => answered_interface(probe, outcome) is None,
            OutcomeView::Finished(output) => answered_interface(probe, outcome) == (
            if output.success {
                named_interface(probe, utf8_lossy_text(output.stdout))
            } else {
                None
            }),
        },
        match detected(probe, outcome) {
            DetectionView::Found(name) => answered_interface(probe, outcome) == Some(name),
            DetectionView::Next(Probe::DefaultRoute) => probe == Probe::RouteTable
                && answered_interface(probe, outcome) is None,
            DetectionView::Next(Probe::DeviceTable) => probe == Probe::DefaultRoute
                && answered_interface(probe, outcome) is None,
            DetectionView::Next(Probe::RouteTable) => false,
            DetectionView::Nothing => probe == Probe::DeviceTable && answered_interface(
                probe,
                outcome,
            ) is None,
        },
{
}

} // verus!
