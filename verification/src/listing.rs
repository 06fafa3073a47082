//! What `nft` lists: the rules of a chain with their handles, and whether anything is left.

use vstd::prelude::*;
use vstd::string::*;
use crate::command::{utf8_lossy, utf8_lossy_text, Outcome, OutcomeView};
use crate::number::{numeral_value, parse_number, Radix};
use crate::text::{
    begins_with, chars_of, last_occurrence, lemma_last_occurrence, lines, lines_of, rfind,
    same_text, starts_with, trim, trimmed, views,
};

verus! {

/// The model of a line of a listing that shows a rule and its handle.
pub struct ListedRule {
    pub text: Seq<char>,
    pub handle: u64,
}

/// The mark that stands between a rule and its handle.
pub open spec fn handle_mark() -> Seq<char> {
    "# handle "@
}

/// The text opens a block, as the header of a table or of a chain does.
pub open spec fn opens_block(text: Seq<char>) -> bool {
    text.len() > 0 && text.last() == '{'
}

/// The rule that a line of a listing shows: the text before the last mark, and the number
/// behind it. The header of a table or of a chain has a handle too, but is no rule.
pub open spec fn listed_rule(line: Seq<char>) -> Option<ListedRule> {
    let shown = trimmed(line);
    match last_occurrence(shown, handle_mark()) {
        None => None,
        Some(at) => {
            let text = trimmed(shown.take(at));
            let number = trimmed(shown.skip(at + handle_mark().len()));
            match numeral_value(number, Radix::Ten, u64::MAX as nat) {
                Err(_) => None,
                Ok(handle) => if opens_block(text) {
                    None
                } else {
                    Some(ListedRule { text, handle: handle as u64 })
                },
            }
        },
    }
}

/// The rules that the lines show, in order.
pub open spec fn listed_rules(lines: Seq<Seq<char>>) -> Seq<ListedRule>
    decreases lines.len(),
{
    if lines.len() == 0 {
        seq![]
    } else {
        let before = listed_rules(lines.drop_last());
        match listed_rule(lines.last()) {
            None => before,
            Some(rule) => before.push(rule),
        }
    }
}

/// The handles of the rules whose verdict is true, in order.
pub open spec fn chosen_handles(rules: Seq<ListedRule>, verdicts: Seq<bool>) -> Seq<u64>
    decreases rules.len(),
{
    if rules.len() == 0 {
        seq![]
    } else {
        let before = chosen_handles(rules.drop_last(), verdicts.drop_last());
        if verdicts.last() {
            before.push(rules.last().handle)
        } else {
            before
        }
    }
}

/// The predicate may say `verdict` of the text.
pub open spec fn may_say<F: Fn(&str) -> bool>(predicate: F, text: Seq<char>, verdict: bool) -> bool {
    exists|s: &str| s@ == text && #[trigger] call_ensures(predicate, (s,), verdict)
}

/// The handles are those of the rules that the predicate accepted, one verdict for each rule.
pub open spec fn accepted_handles<F: Fn(&str) -> bool>(
    predicate: F,
    rules: Seq<ListedRule>,
    handles: Seq<u64>,
) -> bool {
    exists|verdicts: Seq<bool>|
        {
            &&& verdicts.len() == rules.len()
            &&& forall|i: int|
                0 <= i < rules.len() ==> may_say(predicate, rules[i].text, #[trigger] verdicts[i])
            &&& handles == #[trigger] chosen_handles(rules, verdicts)
        }
}

/// Whether the text opens a block.
fn is_header(text: &str) -> (header: bool)
    ensures
        header == opens_block(text@),
{
    let chars = chars_of(text);
    chars.len() > 0 && chars[chars.len() - 1] == '{'
}

/// A rule of a listing, and its handle.
fn read_rule(line: &str) -> (rule: Option<(&str, u64)>)
    ensures
        match rule {
            Some((text, handle)) => listed_rule(line@) == Some(
                ListedRule { text: text@, handle },
            ),
            None => listed_rule(line@) is None,
        },
{
    let shown = trim(line);
    match rfind(shown, "# handle ") {
        None => None,
        Some(at) => {
            proof {
                reveal_strlit("# handle ");
                lemma_last_occurrence(shown@, "# handle "@);
            }
            let end: usize = shown.unicode_len();
            let text = trim(shown.substring_char(0, at));
            let number = trim(shown.substring_char(at + 9, end));
            assert(shown@.subrange(0, at as int) == shown@.take(at as int));
            assert(shown@.subrange(at + 9, shown@.len() as int) == shown@.skip(at + 9));
            match parse_number(number, Radix::Ten, u64::MAX) {
                Err(_) => None,
                Ok(handle) => if is_header(text) {
                    None
                } else {
                    Some((text, handle))
                },
            }
        },
    }
}

/// Returns the handles of the rules in the listing that the predicate accepts.
pub fn rule_handles<F: Fn(&str) -> bool>(listing: &str, predicate: &F) -> (handles: Vec<u64>)
    requires
        forall|s: &str| call_requires(predicate, (s,)),
    ensures
        accepted_handles(*predicate, listed_rules(lines_of(listing@)), handles@),
{
    let rows = lines(listing);
    let mut handles: Vec<u64> = Vec::new();
    let ghost mut verdicts: Seq<bool> = Seq::empty();
    let ghost all = lines_of(listing@);
    for i in 0..rows.len()
        invariant
            forall|s: &str| call_requires(predicate, (s,)),
            all == views(rows@),
            verdicts.len() == listed_rules(all.take(i as int)).len(),
            forall|j: int|
                0 <= j < verdicts.len() ==> may_say(
                    *predicate,
                    listed_rules(all.take(i as int))[j].text,
                    #[trigger] verdicts[j],
                ),
            handles@ == chosen_handles(listed_rules(all.take(i as int)), verdicts),
    {
        let ghost rules = listed_rules(all.take(i as int));
        assert(all.take(i + 1).drop_last() == all.take(i as int));
        assert(all.take(i + 1).last() == rows@[i as int]@);
        match read_rule(rows[i]) {
            None => {},
            Some((text, handle)) => {
                let accepted = predicate(text);
                proof {
                    let before = verdicts;
                    verdicts = verdicts.push(accepted);
                    let now = rules.push(ListedRule { text: text@, handle });
                    assert(now == listed_rules(all.take(i + 1)));
                    assert(now.drop_last() == rules);
                    assert(verdicts.drop_last() == before);
                    assert(may_say(*predicate, text@, accepted));
                }
                if accepted {
                    handles.push(handle);
                }
            },
        }
    }
    assert(all.take(rows@.len() as int) == all);
    handles
}

/// The rules that the outcome of listing a chain shows. Where `nft` is missing or reports a
/// failure, there are none; where it cannot be run for another reason, that is an error.
pub open spec fn shown_rules<E>(outcome: OutcomeView<E>) -> Result<Seq<ListedRule>, E> {
    match outcome {
        OutcomeView::Failed { not_found, error } => if not_found {
            Ok(seq![])
        } else {
            Err(error)
        },
        OutcomeView::Finished(output) => if output.success {
            Ok(listed_rules(lines_of(utf8_lossy_text(output.stdout))))
        } else {
            Ok(seq![])
        },
    }
}

/// Returns rule handles for all rules that match `predicate` in the chain whose listing came
/// to this outcome.
pub fn get_chain_rule_handles<F: Fn(&str) -> bool, E>(
    outcome: Outcome<E>,
    predicate: &F,
) -> (handles: Result<Vec<u64>, E>)
    requires
        forall|s: &str| call_requires(predicate, (s,)),
    ensures
        match handles {
            Ok(handles) => shown_rules(outcome@) is Ok && accepted_handles(
                *predicate,
                shown_rules(outcome@)->Ok_0,
                handles@,
            ),
            Err(error) => shown_rules(outcome@) == Err::<Seq<ListedRule>, E>(error),
        },
{
    match outcome {
        Outcome::Failed { not_found, error } => {
            if not_found {
                let none: Vec<u64> = Vec::new();
                proof {
                    let verdicts = Seq::<bool>::empty();
                    assert(chosen_handles(Seq::<ListedRule>::empty(), verdicts) == none@);
                }
                Ok(none)
            } else {
                Err(error)
            }
        },
        Outcome::Finished(output) => {
            if !output.success {
                let none: Vec<u64> = Vec::new();
                proof {
                    let verdicts = Seq::<bool>::empty();
                    assert(chosen_handles(Seq::<ListedRule>::empty(), verdicts) == none@);
                }
                return Ok(none);
            }
            let listing = utf8_lossy(output.stdout.as_slice());
            Ok(rule_handles(listing.as_str(), predicate))
        },
    }
}

/// The line opens or closes a block, declares the type of a chain, or is blank.
pub open spec fn is_chain_frame(line: Seq<char>) -> bool {
    let shown = trimmed(line);
    ||| shown.len() == 0
    ||| shown == "}"@
    ||| begins_with(shown, "table "@)
    ||| begins_with(shown, "chain "@)
    ||| begins_with(shown, "type "@)
}

/// The line opens or closes the block of a table, or is blank.
pub open spec fn is_table_frame(line: Seq<char>) -> bool {
    let shown = trimmed(line);
    ||| shown.len() == 0
    ||| shown == "}"@
    ||| begins_with(shown, "table "@)
}

/// The listing of a chain shows nothing but the frame of the chain.
pub open spec fn chain_is_bare(listing: Seq<char>) -> bool {
    forall|i: int| 0 <= i < lines_of(listing).len() ==> is_chain_frame(#[trigger] lines_of(listing)[i])
}

/// The listing of a table shows nothing but the frame of the table.
pub open spec fn table_is_bare(listing: Seq<char>) -> bool {
    forall|i: int| 0 <= i < lines_of(listing).len() ==> is_table_frame(#[trigger] lines_of(listing)[i])
}

/// Whether the listing of a chain shows no rule.
pub fn holds_no_rules(listing: &str) -> (bare: bool)
    ensures
        bare == chain_is_bare(listing@),
{
    let rows = lines(listing);
    for i in 0..rows.len()
        invariant
            views(rows@) == lines_of(listing@),
            forall|j: int| 0 <= j < i ==> is_chain_frame(#[trigger] lines_of(listing@)[j]),
    {
        let shown = trim(rows[i]);
        assert(lines_of(listing@)[i as int] == rows@[i as int]@);
        if !(shown.is_empty() || same_text(shown, "}") || starts_with(shown, "table ")
            || starts_with(shown, "chain ") || starts_with(shown, "type ")) {
            assert(!is_chain_frame(lines_of(listing@)[i as int]));
            return false;
        }
    }
    true
}

/// Whether the listing of a table shows no chain, nor anything else.
pub fn holds_no_chains(listing: &str) -> (bare: bool)
    ensures
        bare == table_is_bare(listing@),
{
    let rows = lines(listing);
    for i in 0..rows.len()
        invariant
            views(rows@) == lines_of(listing@),
            forall|j: int| 0 <= j < i ==> is_table_frame(#[trigger] lines_of(listing@)[j]),
    {
        let shown = trim(rows[i]);
        assert(lines_of(listing@)[i as int] == rows@[i as int]@);
        if !(shown.is_empty() || same_text(shown, "}") || starts_with(shown, "table ")) {
            assert(!is_table_frame(lines_of(listing@)[i as int]));
            return false;
        }
    }
    true
}

} // verus!
