//! Running the tools of the system: the command line of each, and what to
//! make of how a run ended.

use crate::card::{CardModel, CardStatus, Messages, NetToolCard};
use crate::number;
use crate::text;
use crate::text::Class;
use vstd::prelude::*;

verus! {

/// A command to run, and how long it may take.
#[derive(Clone, Debug, PartialEq, Eq)]
pub struct ToolCommand {
    pub program: String,
    pub args: Vec<String>,
    pub budget_secs: u64,
}

/// A command as texts.
pub struct CommandModel {
    pub program: Seq<char>,
    pub args: Seq<Seq<char>>,
    pub budget_secs: u64,
}

impl View for ToolCommand {
    type V = CommandModel;

    open spec fn view(&self) -> CommandModel {
        CommandModel {
            program: self.program@,
            args: text::strings(self.args@),
            budget_secs: self.budget_secs,
        }
    }
}

/// How a run of a tool ended.
#[derive(Clone, Debug, PartialEq, Eq)]
pub enum ToolRun {
    /// There is no such program.
    Missing,
    /// The program could not be started or waited for, for the given reason.
    Failed(String),
    /// The program took longer than it may.
    TimedOut,
    /// The program ended and wrote these bytes.
    Finished { stdout: Vec<u8>, stderr: Vec<u8> },
}

/// The text of bytes that should be UTF-8, with a replacement character for
/// each sequence of bytes that is not.
pub uninterp spec fn lossy_text(bytes: Seq<u8>) -> Seq<char>;

/// `String::from_utf8_lossy` decodes UTF-8, and the same bytes always give the
/// same text. Bytes that are not valid UTF-8 leave replacement characters in
/// it; how many, and where, is left unsaid.
#[verifier::external_body]
fn decode_lossy(bytes: &[u8]) -> (res: String)
    ensures
        res@ == lossy_text(bytes@),
        vstd::utf8::valid_utf8(bytes@) ==> res@ == vstd::utf8::decode_utf8(bytes@),
        !vstd::utf8::valid_utf8(bytes@) ==> res@.contains('\u{fffd}'),
{
    String::from_utf8_lossy(bytes).into_owned()
}

/// Both outputs of a tool as one text: what it printed as an error comes
/// behind the rest, on a line of its own, unless it is blank.
pub open spec fn both_outputs(out: Seq<char>, err: Seq<char>) -> Seq<char> {
    if text::trim(err, Class::Space).len() == 0 {
        out
    } else if out.len() == 0 {
        text::trim_end(err, Class::Space)
    } else {
        out.push('\n') + text::trim_end(err, Class::Space)
    }
}

/// Where to get the missing program. Named per tool because the packages
/// differ (and on Windows both ship with the system, so the message there is
/// about the search path rather than an install).
pub open spec fn hint_of(program: Seq<char>, windows: bool, messages: Messages) -> Seq<char> {
    if windows {
        messages.net_tool_missing_windows@
    } else if program == "traceroute"@ {
        messages.net_tool_missing_traceroute@
    } else {
        messages.net_tool_missing_ping@
    }
}

/// The card for a program that is not installed.
pub open spec fn missing_model(program: Seq<char>, windows: bool, messages: Messages) -> CardModel {
    CardModel::new(
        messages.net_tool_missing_binary@,
        seq![
            program + ": "@ + messages.net_tool_missing_binary_desc@,
            hint_of(program, windows, messages),
        ],
    ).status(CardStatus::Bad)
}

/// The card for a program that failed.
pub open spec fn failed_model(program: Seq<char>, reason: Seq<char>) -> CardModel {
    CardModel::new(program, seq![reason]).status(CardStatus::Bad)
}

/// The card for a program that took too long.
pub open spec fn timeout_model(program: Seq<char>, budget_secs: u64, messages: Messages) -> CardModel {
    CardModel::new(
        program,
        seq![messages.net_err_timeout@ + " ("@ + number::decimal(budget_secs as nat) + "s)"@],
    ).status(CardStatus::Warn)
}

/// What a run of a tool comes to: the text that it printed, or a card that
/// says why there is none.
pub open spec fn result_of(
    program: Seq<char>,
    run: ToolRun,
    budget_secs: u64,
    windows: bool,
    messages: Messages,
) -> Result<Seq<char>, CardModel> {
    match run {
        ToolRun::Missing => Err(missing_model(program, windows, messages)),
        ToolRun::Failed(reason) => Err(failed_model(program, reason@)),
        ToolRun::TimedOut => Err(timeout_model(program, budget_secs, messages)),
        ToolRun::Finished { stdout, stderr } => Ok(
            both_outputs(lossy_text(stdout@), lossy_text(stderr@)),
        ),
    }
}

/// Where to get the missing program.
pub fn missing_hint<'a>(program: &str, windows: bool, messages: &'a Messages) -> (res: &'a str)
    ensures
        res@ == hint_of(program@, windows, *messages),
{
    if windows {
        return messages.net_tool_missing_windows.as_str();
    }
    let program: Vec<char> = text::chars_of(program);
    let traceroute: Vec<char> = text::chars_of("traceroute");
    if text::same(&program, &traceroute) {
        messages.net_tool_missing_traceroute.as_str()
    } else {
        messages.net_tool_missing_ping.as_str()
    }
}

/// Both outputs of a tool as one text.
///
/// Unreachable-host messages arrive on the error output in several
/// implementations, so dropping it would blank the card in exactly the
/// failing case the user is looking at.
pub fn combine_outputs(out: String, err: &str) -> (res: String)
    ensures
        res@ == both_outputs(out@, err@),
{
    let err: Vec<char> = text::chars_of(err);
    if text::trimmed(&err, Class::Space).len() == 0 {
        return out;
    }
    let mut res = out;
    if !res.as_str().is_empty() {
        res.push('\n');
    }
    let err = text::string_of(text::trimmed_end(&err, Class::Space));
    res.append(err.as_str());
    assert(Seq::<char>::empty() + err@ == err@);
    res
}

/// The text that a tool wrote to its two outputs.
pub fn tool_output(stdout: &[u8], stderr: &[u8]) -> (res: String)
    ensures
        res@ == both_outputs(lossy_text(stdout@), lossy_text(stderr@)),
        vstd::utf8::valid_utf8(stdout@) && vstd::utf8::valid_utf8(stderr@) ==> res@
            == both_outputs(vstd::utf8::decode_utf8(stdout@), vstd::utf8::decode_utf8(stderr@)),
{
    let out = decode_lossy(stdout);
    let err = decode_lossy(stderr);
    combine_outputs(out, err.as_str())
}

/// Whether an outcome is the one the model describes.
pub open spec fn is_result(
    res: Result<String, NetToolCard>,
    model: Result<Seq<char>, CardModel>,
) -> bool {
    match res {
        Ok(output) => model == Ok::<Seq<char>, CardModel>(output@),
        Err(card) => model == Err::<Seq<char>, CardModel>(card@),
    }
}

/// What a run of a tool comes to. The `Err` arm is a finished card rather
/// than a message, because "traceroute is not installed" is an answer worth
/// rendering like any other.
pub fn tool_result(
    program: &str,
    run: ToolRun,
    budget_secs: u64,
    windows: bool,
    messages: &Messages,
) -> (res: Result<String, NetToolCard>)
    ensures
        is_result(res, result_of(program@, run, budget_secs, windows, *messages)),
{
    let mut lines: Vec<String> = Vec::new();
    match run {
        ToolRun::Missing => {
            let mut line = program.to_owned();
            line.append(": ");
            line.append(messages.net_tool_missing_binary_desc.as_str());
            lines.push(line);
            lines.push(missing_hint(program, windows, messages).to_owned());
            let title = messages.net_tool_missing_binary.clone();
            let card = NetToolCard::new(title, lines).status(CardStatus::Bad);
            assert(card@.lines == missing_model(program@, windows, *messages).lines);
            Err(card)
        },
        ToolRun::Failed(reason) => {
            lines.push(reason);
            let card = NetToolCard::new(program.to_owned(), lines).status(CardStatus::Bad);
            assert(card@.lines == failed_model(program@, reason@).lines);
            Err(card)
        },
        ToolRun::TimedOut => {
            let mut line = messages.net_err_timeout.clone();
            line.append(" (");
            line.append(number::print_u64(budget_secs).as_str());
            line.append("s)");
            lines.push(line);
            let card = NetToolCard::new(program.to_owned(), lines).status(CardStatus::Warn);
            assert(card@.lines == timeout_model(program@, budget_secs, *messages).lines);
            Err(card)
        },
        ToolRun::Finished { stdout, stderr } => Ok(tool_output(&stdout, &stderr)),
    }
}

/// What a tool printed as an error is never lost: unless it is blank it ends
/// the text, and what the tool printed otherwise begins it.
pub proof fn law_both_outputs_are_kept(out: Seq<char>, err: Seq<char>)
    ensures
        out.is_prefix_of(both_outputs(out, err)),
        text::trim(err, Class::Space).len() > 0 ==> text::trim_end(err, Class::Space).is_suffix_of(
            both_outputs(out, err),
        ),
        text::trim(err, Class::Space).len() == 0 ==> both_outputs(out, err) == out,
{
    let tail = text::trim_end(err, Class::Space);
    let all = both_outputs(out, err);
    if text::trim(err, Class::Space).len() > 0 {
        assert(all.subrange(all.len() - tail.len(), all.len() as int) == tail);
        assert(all.take(out.len() as int) == out);
    }
}

/// What a tool printed as an error, up to the white space at its end, comes
/// last: alone, or on a line of its own behind the rest. Blank errors change
/// nothing.
pub proof fn law_error_output_comes_last(out: Seq<char>, err: Seq<char>, blank: Seq<char>)
    requires
        err.len() > 0,
        !text::is_space(err.last()),
        forall|i: int| 0 <= i < blank.len() ==> text::is_space(#[trigger] blank[i]),
    ensures
        both_outputs(out, err + blank) == if out.len() == 0 {
            err
        } else {
            out + seq!['\n'] + err
        },
        both_outputs(out, blank) == out,
{
    let none = Seq::<char>::empty();
    let k = text::leading(err, Class::Space) as int;
    text::lemma_leading(err, Class::Space);
    assert(k < err.len()) by {
        if k >= err.len() {
            assert(Class::Space.has(err[err.len() - 1]));
        }
    }
    let front = err.take(k);
    let m = err.skip(k);
    assert forall|i: int| 0 <= i < front.len() implies Class::Space.has(#[trigger] front[i]) by {
        assert(front[i] == err[i]);
    }
    assert(m[0] == err[k] && m.last() == err.last());
    text::law_trim(front, m, blank, Class::Space);
    assert(front + m =~= err);
    assert(front + m + blank =~= err + blank);
    assert(out.push('\n') + err =~= out + seq!['\n'] + err);
    text::lemma_leading_is(blank, Class::Space, blank.len() as int);
    assert(blank.skip(blank.len() as int) =~= none);
    text::lemma_trailing(none, Class::Space);
}

/// The outcomes of a run: the text of both outputs where the tool finished,
/// and else a card. It says where to get a missing tool, gives the reason of a
/// failure under the name of the tool, or warns that the time was up.
pub proof fn law_outcomes(
    program: Seq<char>,
    budget_secs: u64,
    windows: bool,
    messages: Messages,
    reason: String,
    stdout: Vec<u8>,
    stderr: Vec<u8>,
)
    ensures
        ({
            let result = |run: ToolRun| result_of(program, run, budget_secs, windows, messages);
            &&& result(ToolRun::Finished { stdout, stderr }) == Ok::<Seq<char>, CardModel>(
                both_outputs(lossy_text(stdout@), lossy_text(stderr@)),
            )
            &&& result(ToolRun::Missing) matches Err(card) && card.title
                == messages.net_tool_missing_binary@ && card.status == Some(CardStatus::Bad)
                && card.raw is None && card.lines == seq![
                program + seq![':', ' '] + messages.net_tool_missing_binary_desc@,
                if windows {
                    messages.net_tool_missing_windows@
                } else if program == "traceroute"@ {
                    messages.net_tool_missing_traceroute@
                } else {
                    messages.net_tool_missing_ping@
                },
            ]
            &&& result(ToolRun::Failed(reason)) matches Err(card) && card.title == program
                && card.status == Some(CardStatus::Bad) && card.raw is None && card.lines == seq![
                reason@,
            ]
            &&& result(ToolRun::TimedOut) matches Err(card) && card.title == program && card.status
                == Some(CardStatus::Warn) && card.raw is None && card.lines == seq![
                messages.net_err_timeout@ + seq![' ', '('] + number::decimal(budget_secs as nat)
                    + seq!['s', ')'],
            ]
        }),
{
    reveal_strlit(": ");
    reveal_strlit(" (");
    reveal_strlit("s)");
    assert(": "@ =~= seq![':', ' ']);
    assert(" ("@ =~= seq![' ', '(']);
    assert("s)"@ =~= seq!['s', ')']);
}

} // verus!
