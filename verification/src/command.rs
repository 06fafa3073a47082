//! Requests to the system, their outcomes, and how the outcome of an `nft` command is judged.
//!
//! Nothing here touches the system. A request says what to read or run; whoever performs it
//! hands back the outcome.

use vstd::prelude::*;
use vstd::string::*;
use vstd::utf8::{decode_utf8, valid_utf8};
use crate::text::{trim, trimmed, views};

verus! {

/// The address family of the table that holds the rules.
pub const TABLE_FAMILY: &'static str = "inet";

/// The name of the table that holds the rules.
pub const TABLE_NAME: &'static str = "phantun";

/// The views of a sequence of owned strings.
pub open spec fn string_views(strings: Seq<String>) -> Seq<Seq<char>> {
    strings.map_values(|s: String| s@)
}

/// Something that only the system can do.
#[derive(Debug)]
pub enum Request {
    /// Read the file at this path as text.
    ReadFile(String),
    /// Run the program with the arguments and wait for its end.
    Run { program: String, args: Vec<String> },
}

/// The model of a `Request`.
pub enum RequestView {
    ReadFile(Seq<char>),
    Run { program: Seq<char>, args: Seq<Seq<char>> },
}

impl View for Request {
    type V = RequestView;

    open spec fn view(&self) -> RequestView {
        match self {
            Request::ReadFile(path) => RequestView::ReadFile(path@),
            Request::Run { program, args } => RequestView::Run {
                program: program@,
                args: string_views(args@),
            },
        }
    }
}

/// What a request left behind: how the program ended and what it wrote. A file that was read
/// counts as a success whose `stdout` is its content.
#[derive(Debug)]
pub struct Output {
    pub success: bool,
    pub status: String,
    pub stdout: Vec<u8>,
    pub stderr: Vec<u8>,
}

/// The model of an `Output`.
pub struct OutputView {
    pub success: bool,
    pub status: Seq<char>,
    pub stdout: Seq<u8>,
    pub stderr: Seq<u8>,
}

impl View for Output {
    type V = OutputView;

    open spec fn view(&self) -> OutputView {
        OutputView {
            success: self.success,
            status: self.status@,
            stdout: self.stdout@,
            stderr: self.stderr@,
        }
    }
}

/// The outcome of a request.
#[derive(Debug)]
pub enum Outcome<E> {
    /// The program could not be started or the file not be read; `not_found` says whether
    /// that is because there is none.
    Failed { not_found: bool, error: E },
    /// The program ran to its end, or the file was read.
    Finished(Output),
}

/// The model of an `Outcome`.
pub enum OutcomeView<E> {
    Failed { not_found: bool, error: E },
    Finished(OutputView),
}

impl<E> View for Outcome<E> {
    type V = OutcomeView<E>;

    open spec fn view(&self) -> OutcomeView<E> {
        match self {
            Outcome::Failed { not_found, error } => OutcomeView::Failed {
                not_found: *not_found,
                error: *error,
            },
            Outcome::Finished(output) => OutcomeView::Finished(output@),
        }
    }
}

/// Why a rule could not be managed.
#[derive(Debug)]
pub enum NftError<E> {
    /// There is no `nft` program.
    NotFound(String),
    /// `nft` ran and reported a failure.
    Failed(String),
    /// `nft` could not be run for another reason.
    Io(E),
}

/// The model of an `NftError`.
pub enum NftErrorView<E> {
    NotFound(Seq<char>),
    Failed(Seq<char>),
    Io(E),
}

impl<E> View for NftError<E> {
    type V = NftErrorView<E>;

    open spec fn view(&self) -> NftErrorView<E> {
        match self {
            NftError::NotFound(message) => NftErrorView::NotFound(message@),
            NftError::Failed(message) => NftErrorView::Failed(message@),
            NftError::Io(error) => NftErrorView::Io(*error),
        }
    }
}

/// The text that `String::from_utf8_lossy` makes of `bytes`.
pub uninterp spec fn utf8_lossy_text(bytes: Seq<u8>) -> Seq<char>;

/// Calls `String::from_utf8_lossy`. Claimed: the text depends on the bytes alone, and it is the
/// text that the bytes encode where they are valid UTF-8. How bytes that are not valid UTF-8
/// are replaced is left unsaid.
#[verifier::external_body]
pub(crate) fn utf8_lossy(bytes: &[u8]) -> (text: String)
    ensures
        text@ == utf8_lossy_text(bytes@),
        valid_utf8(bytes@) ==> text@ == decode_utf8(bytes@),
{
    String::from_utf8_lossy(bytes).into_owned()
}

/// The parts in order, with `separator` between each two of them.
pub open spec fn joined(parts: Seq<Seq<char>>, separator: Seq<char>) -> Seq<char>
    decreases parts.len(),
{
    if parts.len() == 0 {
        seq![]
    } else if parts.len() == 1 {
        parts[0]
    } else {
        joined(parts.drop_last(), separator) + separator + parts.last()
    }
}

/// Joins the parts, with `separator` between each two of them.
pub fn join(parts: &Vec<String>, separator: &str) -> (text: String)
    ensures
        text@ == joined(string_views(parts@), separator@),
{
    let mut text = String::new();
    let ghost all = string_views(parts@);
    for i in 0..parts.len()
        invariant
            all == string_views(parts@),
            text@ == joined(all.take(i as int), separator@),
    {
        assert(all.take(i + 1).drop_last() == all.take(i as int));
        if i > 0 {
            text.append(separator);
        }
        text.append(parts[i].as_str());
        assert(text@ =~= joined(all.take(i + 1), separator@));
    }
    assert(all.take(parts@.len() as int) == all);
    text
}

/// Owned copies of the strings.
pub(crate) fn owned(parts: &Vec<&str>) -> (copies: Vec<String>)
    ensures
        string_views(copies@) == views(parts@),
{
    let mut copies: Vec<String> = Vec::new();
    for i in 0..parts.len()
        invariant
            string_views(copies@) == views(parts@).take(i as int),
    {
        let copy = parts[i].to_owned();
        let ghost before = string_views(copies@);
        copies.push(copy);
        assert(string_views(copies@) =~= before.push(copy@));
        assert(views(parts@).take(i + 1) =~= views(parts@).take(i as int).push(copy@));
    }
    assert(views(parts@).take(parts@.len() as int) == views(parts@));
    copies
}

/// The request to run `nft` with these arguments.
pub open spec fn nft_run(args: Seq<Seq<char>>) -> RequestView {
    RequestView::Run { program: "nft"@, args }
}

/// Returns the request to run `nft` with these arguments.
pub fn nft_request(args: Vec<String>) -> (request: Request)
    ensures
        request@ == nft_run(string_views(args@)),
{
    Request::Run { program: "nft".to_owned(), args }
}

/// What is said when there is no `nft` program.
pub open spec fn nft_missing_message() -> Seq<char> {
    "nft command not found. Please install nftables or pass --no-nftables to disable automatic rule management."@
}

/// What is said when `nft` with the arguments `args` ended with the status `status` after
/// writing `stderr`.
pub open spec fn nft_failed_message(
    args: Seq<Seq<char>>,
    status: Seq<char>,
    stderr: Seq<char>,
) -> Seq<char> {
    "nft command failed with status "@ + status + ": nft "@ + joined(args, " "@) + "\nStderr: "@
        + trimmed(stderr)
}

/// Writes what is said when `nft` failed.
pub fn nft_failed_text(args: &Vec<String>, status: &str, stderr: &str) -> (text: String)
    ensures
        text@ == nft_failed_message(string_views(args@), status@, stderr@),
{
    let mut text = "nft command failed with status ".to_owned();
    text.append(status);
    text.append(": nft ");
    text.append(join(args, " ").as_str());
    text.append("\nStderr: ");
    text.append(trim(stderr));
    text
}

/// How the outcome of `nft` with the arguments `args` is judged.
pub open spec fn executed<E>(args: Seq<Seq<char>>, outcome: OutcomeView<E>) -> Result<
    OutputView,
    NftErrorView<E>,
> {
    match outcome {
        OutcomeView::Failed { not_found, error } => if not_found {
            Err(NftErrorView::NotFound(nft_missing_message()))
        } else {
            Err(NftErrorView::Io(error))
        },
        OutcomeView::Finished(output) => if output.success {
            Ok(output)
        } else {
            Err(
                NftErrorView::Failed(
                    nft_failed_message(args, output.status, utf8_lossy_text(output.stderr)),
                ),
            )
        },
    }
}

/// Judges the outcome of running `nft` with the arguments `args`.
pub fn execute_nft<E>(args: &Vec<String>, outcome: Outcome<E>) -> (result: Result<
    Output,
    NftError<E>,
>)
    ensures
        match result {
            Ok(output) => executed(string_views(args@), outcome@) == Ok::<
                OutputView,
                NftErrorView<E>,
            >(output@),
            Err(error) => executed(string_views(args@), outcome@) == Err::<
                OutputView,
                NftErrorView<E>,
            >(error@),
        },
{
    match outcome {
        Outcome::Failed { not_found, error } => {
            if not_found {
                Err(
                    NftError::NotFound(
                        "nft command not found. Please install nftables or pass --no-nftables to disable automatic rule management.".to_owned(),
                    ),
                )
            } else {
                Err(NftError::Io(error))
            }
        },
        Outcome::Finished(output) => {
            if !output.success {
                let stderr = utf8_lossy(output.stderr.as_slice());
                return Err(
                    NftError::Failed(
                        nft_failed_text(args, output.status.as_str(), stderr.as_str()),
                    ),
                );
            }
            Ok(output)
        },
    }
}

/// The arguments with which `nft` makes the table unless it exists.
pub open spec fn add_table_args() -> Seq<Seq<char>> {
    seq!["add"@, "table"@, TABLE_FAMILY@, TABLE_NAME@]
}

/// Returns the arguments with which `nft` makes sure that the table exists.
pub fn ensure_table_exists() -> (args: Vec<String>)
    ensures
        string_views(args@) == add_table_args(),
{
    let parts = vec!["add", "table", TABLE_FAMILY, TABLE_NAME];
    assert(views(parts@) =~= add_table_args());
    owned(&parts)
}

/// The arguments with which `nft` makes the chain unless it exists.
pub open spec fn add_chain_args(chain: Seq<char>, definition: Seq<char>) -> Seq<Seq<char>> {
    seq!["add"@, "chain"@, TABLE_FAMILY@, TABLE_NAME@, chain, definition]
}

/// Returns the arguments with which `nft` makes sure that the chain exists in the table.
pub fn ensure_chain_exists(chain_name: &str, chain_def: &str) -> (args: Vec<String>)
    ensures
        string_views(args@) == add_chain_args(chain_name@, chain_def@),
{
    let parts = vec!["add", "chain", TABLE_FAMILY, TABLE_NAME, chain_name, chain_def];
    assert(views(parts@) =~= add_chain_args(chain_name@, chain_def@));
    owned(&parts)
}

/// The arguments with which `nft` adds the rule to the chain.
pub open spec fn add_rule_args(chain: Seq<char>, rule: Seq<char>) -> Seq<Seq<char>> {
    seq!["add"@, "rule"@, TABLE_FAMILY@, TABLE_NAME@, chain, rule]
}

/// Returns the arguments with which `nft` adds the rule to the chain.
pub fn add_rule(chain: &str, rule: &str) -> (args: Vec<String>)
    ensures
        string_views(args@) == add_rule_args(chain@, rule@),
{
    let parts = vec!["add", "rule", TABLE_FAMILY, TABLE_NAME, chain, rule];
    assert(views(parts@) =~= add_rule_args(chain@, rule@));
    owned(&parts)
}

/// The arguments with which `nft` lists the chain with the handles of its rules.
pub open spec fn list_chain_args(chain: Seq<char>) -> Seq<Seq<char>> {
    seq!["-a"@, "list"@, "chain"@, TABLE_FAMILY@, TABLE_NAME@, chain]
}

/// Returns the arguments with which `nft` lists the chain with the handles of its rules.
pub fn list_chain(chain: &str) -> (args: Vec<String>)
    ensures
        string_views(args@) == list_chain_args(chain@),
{
    let parts = vec!["-a", "list", "chain", TABLE_FAMILY, TABLE_NAME, chain];
    assert(views(parts@) =~= list_chain_args(chain@));
    owned(&parts)
}

/// The arguments with which `nft` deletes the rule with the handle, written `handle`.
pub open spec fn delete_rule_args(chain: Seq<char>, handle: Seq<char>) -> Seq<Seq<char>> {
    seq!["delete"@, "rule"@, TABLE_FAMILY@, TABLE_NAME@, chain, "handle"@, handle]
}

/// Returns the arguments with which `nft` deletes the rule with the handle, written `handle`.
pub fn delete_rule(chain: &str, handle: &str) -> (args: Vec<String>)
    ensures
        string_views(args@) == delete_rule_args(chain@, handle@),
{
    let parts = vec!["delete", "rule", TABLE_FAMILY, TABLE_NAME, chain, "handle", handle];
    assert(views(parts@) =~= delete_rule_args(chain@, handle@));
    owned(&parts)
}

/// The arguments with which `nft` deletes the chain.
pub open spec fn delete_chain_args(chain: Seq<char>) -> Seq<Seq<char>> {
    seq!["delete"@, "chain"@, TABLE_FAMILY@, TABLE_NAME@, chain]
}

/// Returns the arguments with which `nft` deletes the chain.
pub fn delete_chain(chain: &str) -> (args: Vec<String>)
    ensures
        string_views(args@) == delete_chain_args(chain@),
{
    let parts = vec!["delete", "chain", TABLE_FAMILY, TABLE_NAME, chain];
    assert(views(parts@) =~= delete_chain_args(chain@));
    owned(&parts)
}

/// The arguments with which `nft` lists the table.
pub open spec fn list_table_args() -> Seq<Seq<char>> {
    seq!["list"@, "table"@, TABLE_FAMILY@, TABLE_NAME@]
}

/// Returns the arguments with which `nft` lists the table.
pub fn list_table() -> (args: Vec<String>)
    ensures
        string_views(args@) == list_table_args(),
{
    let parts = vec!["list", "table", TABLE_FAMILY, TABLE_NAME];
    assert(views(parts@) =~= list_table_args());
    owned(&parts)
}

/// The arguments with which `nft` deletes the table.
pub open spec fn delete_table_args() -> Seq<Seq<char>> {
    seq!["delete"@, "table"@, TABLE_FAMILY@, TABLE_NAME@]
}

/// Returns the arguments with which `nft` deletes the table.
pub fn delete_table() -> (args: Vec<String>)
    ensures
        string_views(args@) == delete_table_args(),
{
    let parts = vec!["delete", "table", TABLE_FAMILY, TABLE_NAME];
    assert(views(parts@) =~= delete_table_args());
    owned(&parts)
}

} // verus!
