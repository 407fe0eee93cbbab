//! The cards that the panel shows, and the phrases on them.

use crate::text;
use vstd::prelude::*;

verus! {

/// How a card is coloured.
#[derive(Clone, Copy, Debug, PartialEq, Eq, Structural)]
pub enum CardStatus {
    Good,
    Warn,
    Bad,
}

/// A card as texts.
pub struct CardModel {
    pub title: Seq<char>,
    pub lines: Seq<Seq<char>>,
    pub status: Option<CardStatus>,
    pub raw: Option<Seq<char>>,
}

impl CardModel {
    /// A card with a title and lines, and nothing else.
    pub open spec fn new(title: Seq<char>, lines: Seq<Seq<char>>) -> CardModel {
        CardModel { title, lines, status: None, raw: None }
    }

    /// The card with a status.
    pub open spec fn status(self, status: CardStatus) -> CardModel {
        CardModel { status: Some(status), ..self }
    }

    /// The card with the text that its copy action yields.
    pub open spec fn raw(self, raw: Seq<char>) -> CardModel {
        CardModel { raw: Some(raw), ..self }
    }
}

/// One card of the panel.
#[derive(Clone, Debug, PartialEq, Eq)]
pub struct NetToolCard {
    pub title: String,
    pub lines: Vec<String>,
    /// The verdict that the card stands for, if it stands for one.
    pub status: Option<CardStatus>,
    /// The text that the copy action yields, if it is not the lines.
    pub raw: Option<String>,
}

impl View for NetToolCard {
    type V = CardModel;

    open spec fn view(&self) -> CardModel {
        CardModel {
            title: self.title@,
            lines: text::strings(self.lines@),
            status: self.status,
            raw: match self.raw {
                Some(raw) => Some(raw@),
                None => None,
            },
        }
    }
}

impl NetToolCard {
    /// A card with a title and lines, and nothing else.
    pub fn new(title: String, lines: Vec<String>) -> (res: NetToolCard)
        ensures
            res@ == CardModel::new(title@, text::strings(lines@)),
    {
        NetToolCard { title, lines, status: None, raw: None }
    }

    /// The card with a status.
    pub fn status(self, status: CardStatus) -> (res: NetToolCard)
        ensures
            res@ == self@.status(status),
    {
        NetToolCard { status: Some(status), ..self }
    }

    /// The card with the text that its copy action yields.
    pub fn raw(self, raw: String) -> (res: NetToolCard)
        ensures
            res@ == self@.raw(raw@),
    {
        NetToolCard { raw: Some(raw), ..self }
    }
}

/// The cards of a list as texts.
pub open spec fn cards_of(v: Seq<NetToolCard>) -> Seq<CardModel> {
    Seq::new(v.len(), |i: int| v[i]@)
}

/// The phrases on the cards, in the language of the interface.
///
/// A name in braces is a place that a value is put into.
#[derive(Clone, Debug, PartialEq, Eq)]
pub struct Messages {
    /// The counters of a ping run, with `{recv}`, `{sent}` and `{loss}`.
    pub net_ping_summary: String,
    /// The name of the round-trip times.
    pub net_ping_rtt: String,
    /// The number of hops, with `{n}`.
    pub net_trace_hops: String,
    /// The title of a tool's own output.
    pub net_raw_output: String,
    /// The title for a tool that is not installed.
    pub net_tool_missing_binary: String,
    /// What a missing tool means.
    pub net_tool_missing_binary_desc: String,
    /// Where to look for a missing tool on Windows.
    pub net_tool_missing_windows: String,
    /// Where to get `traceroute`.
    pub net_tool_missing_traceroute: String,
    /// Where to get `ping`.
    pub net_tool_missing_ping: String,
    /// A tool that took too long.
    pub net_err_timeout: String,
    /// The title for the target of a lookup.
    pub net_target: String,
    /// A blocklist without IPv6 listings.
    pub net_rbl_no_ipv6: String,
    /// The title for an address on no blocklist.
    pub net_rbl_clean: String,
    /// The title for an address on a blocklist.
    pub net_rbl_listed: String,
    /// The title for the blocklists that do not list the address.
    pub net_rbl_clean_zones: String,
    /// The title for the blocklists that said nothing.
    pub net_rbl_no_answer: String,
}

/// The tool's own output, verbatim. Always present, and always the thing the
/// copy action yields for `ping` and `traceroute`.
pub open spec fn raw_model(output: Seq<char>, messages: Messages) -> CardModel {
    CardModel::new(messages.net_raw_output@, text::lines(output)).raw(output)
}

/// The tool's own output, verbatim. Always present, and always the thing the
/// copy action yields for `ping` and `traceroute`.
pub fn raw_card(output: &str, messages: &Messages) -> (res: NetToolCard)
    ensures
        res@ == raw_model(output@, *messages),
{
    let chars: Vec<char> = text::chars_of(output);
    let slices = text::lines_of(&chars);
    let mut lines: Vec<String> = Vec::new();
    let mut i: usize = 0;
    while i < slices.len()
        invariant
            i <= slices@.len(),
            lines@.len() == i,
            forall|j: int| 0 <= j < i ==> #[trigger] lines@[j]@ == slices@[j]@,
        decreases slices@.len() - i,
    {
        lines.push(text::string_of(slices[i]));
        i = i + 1;
    }
    assert(text::strings(lines@) == text::texts_of(slices@));
    NetToolCard::new(messages.net_raw_output.clone(), lines).raw(output.to_owned())
}

/// The card with a tool's own output has that output as its lines and yields
/// it when copied: a text without line feeds is one line, and the lines of two
/// texts with a line feed between them follow each other.
pub proof fn law_raw_card(line: Seq<char>, rest: Seq<char>, messages: Messages)
    requires
        !line.contains('\n'),
        line.len() > 0,
        line.last() != '\r',
    ensures
        ({
            let one = raw_model(line, messages);
            let more = raw_model(line + seq!['\n'] + rest, messages);
            &&& one.title == messages.net_raw_output@ && one.status is None
            &&& one.lines == seq![line] && one.raw == Some(line)
            &&& more.lines == seq![line] + raw_model(rest, messages).lines
            &&& more.raw == Some(line + seq!['\n'] + rest)
            &&& more.title == messages.net_raw_output@ && more.status is None
        }),
{
    text::law_lines(line, rest);
}

/// A status and a text to copy are added to a card without changing the rest
/// of it, in either order.
pub proof fn law_cards_are_built_in_any_order(
    title: Seq<char>,
    lines: Seq<Seq<char>>,
    status: CardStatus,
    raw: Seq<char>,
)
    ensures
        ({
            let card = CardModel::new(title, lines);
            let both = card.status(status).raw(raw);
            &&& card.title == title && card.lines == lines && card.status is None && card.raw is None
            &&& both == card.raw(raw).status(status)
            &&& both.title == title && both.lines == lines
            &&& both.status == Some(status) && both.raw == Some(raw)
            &&& card.status(status).raw is None && card.raw(raw).status is None
        }),
{
}

} // verus!
