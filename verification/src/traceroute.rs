//! The path that `traceroute` found.

use crate::address;
use crate::card;
use crate::card::{CardModel, CardStatus, Messages, NetToolCard};
use crate::number;
use crate::number::Number;
use crate::text;
use crate::text::Class;
use crate::tool;
use crate::tool::{CommandModel, ToolCommand, ToolRun};
use vstd::prelude::*;
use vstd::slice::slice_subrange;

verus! {

/// Hops a traceroute walks before giving up. The default is 30 or 64
/// depending on the implementation, which is a long wait for a path that is
/// not going to complete.
pub const MAX_HOPS: u8 = 20;

/// Wall-clock ceiling of a run, in seconds. It covers all of the hops timing
/// out.
pub const TRACEROUTE_BUDGET_SECS: u64 = 90;

/// How long a hop took to answer.
#[derive(Clone, Debug, PartialEq, Eq)]
pub enum HopTime {
    /// Less than the clock can resolve, which counts as zero.
    BelowResolution,
    /// That many milliseconds.
    Millis(Number),
}

/// How long a hop took to answer, as text.
pub enum TimeModel {
    BelowResolution,
    Millis(Seq<char>),
}

impl View for HopTime {
    type V = TimeModel;

    open spec fn view(&self) -> TimeModel {
        match self {
            HopTime::BelowResolution => TimeModel::BelowResolution,
            HopTime::Millis(n) => TimeModel::Millis(n@),
        }
    }
}

/// One traceroute hop.
#[derive(Clone, Debug, PartialEq, Eq)]
pub struct Hop {
    pub index: u32,
    /// Addresses that answered. More than one when the probes at this
    /// distance took different paths, which load-balanced networks do.
    pub hosts: Vec<String>,
    pub times_ms: Vec<HopTime>,
}

/// One traceroute hop as texts.
pub struct HopModel {
    pub index: u32,
    pub hosts: Seq<Seq<char>>,
    pub times_ms: Seq<TimeModel>,
}

/// The times of a list as texts.
pub open spec fn times_of(v: Seq<HopTime>) -> Seq<TimeModel> {
    Seq::new(v.len(), |i: int| v[i]@)
}

impl View for Hop {
    type V = HopModel;

    open spec fn view(&self) -> HopModel {
        HopModel {
            index: self.index,
            hosts: text::strings(self.hosts@),
            times_ms: times_of(self.times_ms@),
        }
    }
}

/// The hops of a list as texts.
pub open spec fn models_of(v: Seq<Hop>) -> Seq<HopModel> {
    Seq::new(v.len(), |i: int| v[i]@)
}

/// A time token and how many tokens it takes. The unit stands in the token
/// or is the next one; a number without the unit is no time. A `<` in front
/// makes it an upper bound.
pub open spec fn time_token(token: Seq<char>, next: Option<Seq<char>>) -> Option<(TimeModel, int)> {
    let below = token.len() > 0 && token[0] == '<';
    let value = if below {
        token.skip(1)
    } else {
        token
    };
    let stripped = value.take(value.len() - "ms"@.len());
    if text::ends_with(value, "ms"@) && number::is_number(stripped) {
        Some((time_model(below, stripped), 1))
    } else if number::is_number(value) && next == Some("ms"@) {
        Some((time_model(below, value), 2))
    } else {
        None
    }
}

/// A time that is an upper bound counts as below the resolution.
pub open spec fn time_model(below: bool, value: Seq<char>) -> TimeModel {
    if below {
        TimeModel::BelowResolution
    } else {
        TimeModel::Millis(value)
    }
}

/// What the tokens behind the hop number say.
pub struct Found {
    pub hosts: Seq<Seq<char>>,
    pub times_ms: Seq<TimeModel>,
}

/// Adds a token that is no time: an address that is not there yet, in round
/// brackets or not. Anything else is prose and adds nothing.
pub open spec fn with_token(found: Found, token: Seq<char>) -> Found {
    let host = text::trim(token, Class::Paren);
    if address::is_address(host) && !found.hosts.contains(host) {
        Found { hosts: found.hosts.push(host), ..found }
    } else {
        found
    }
}

/// The second of the tokens, if there are two.
pub open spec fn second(tokens: Seq<Seq<char>>) -> Option<Seq<char>> {
    if tokens.len() > 1 {
        Some(tokens[1])
    } else {
        None
    }
}

/// What is found behind the tokens, from what was found before them.
pub open spec fn scan(tokens: Seq<Seq<char>>, found: Found) -> Found
    decreases tokens.len(),
{
    if tokens.len() == 0 {
        found
    } else if tokens[0] == "*"@ {
        scan(tokens.skip(1), found)
    } else {
        match time_token(tokens[0], second(tokens)) {
            Some((time, n)) => scan(
                tokens.skip(n),
                Found { times_ms: found.times_ms.push(time), ..found },
            ),
            None => scan(tokens.skip(1), with_token(found, tokens[0])),
        }
    }
}

/// Nothing found yet.
pub open spec fn nothing() -> Found {
    Found { hosts: Seq::empty(), times_ms: Seq::empty() }
}

/// The hop number that a line begins with.
pub open spec fn hop_number(line: Seq<char>) -> Option<u32> {
    let tokens = text::words(text::trim(line, Class::Space));
    if tokens.len() > 0 {
        number::parse_u32(tokens[0])
    } else {
        None
    }
}

/// The hop of a line, if the line begins with a hop number.
pub open spec fn hop_of_line(line: Seq<char>) -> Option<HopModel> {
    let tokens = text::words(text::trim(line, Class::Space));
    match hop_number(line) {
        Some(index) => {
            let found = scan(tokens.skip(1), nothing());
            Some(HopModel { index, hosts: found.hosts, times_ms: found.times_ms })
        },
        None => None,
    }
}

/// The hops of the lines, in order.
pub open spec fn hops_of_lines(lines: Seq<Seq<char>>) -> Seq<HopModel>
    decreases lines.len(),
{
    if lines.len() == 0 {
        Seq::empty()
    } else {
        let earlier = hops_of_lines(lines.drop_last());
        match hop_of_line(lines.last()) {
            Some(hop) => earlier.push(hop),
            None => earlier,
        }
    }
}

/// The hops of a traceroute run.
pub open spec fn hops_of(output: Seq<char>) -> Seq<HopModel> {
    hops_of_lines(text::lines(output))
}

/// A time token and how many tokens it consumed. `<1` is Windows for "under a
/// millisecond" and is read as zero rather than dropped, so the hop keeps its
/// answered/silent distinction.
pub fn parse_time_token(token: &[char], next: Option<&[char]>) -> (res: Option<(HopTime, usize)>)
    ensures
        match res {
            Some((time, n)) => time_token(
                token@,
                match next {
                    Some(t) => Some(t@),
                    None => None,
                },
            ) == Some((time@, n as int)),
            None => time_token(
                token@,
                match next {
                    Some(t) => Some(t@),
                    None => None,
                },
            ) is None,
        },
{
    // `<1` is an upper bound, not a measurement: the hop answered in less
    // than the clock can resolve. It reads as 0, because rendering it as 1
    // would claim a millisecond the router never spent.
    let below = token.len() > 0 && token[0] == '<';
    let value = if below {
        slice_subrange(token, 1, token.len())
    } else {
        token
    };
    assert(below ==> value@ == token@.skip(1));
    let unit: Vec<char> = text::chars_of("ms");
    match text::stripped_end(value, &unit) {
        Some(stripped) => match Number::read(stripped) {
            Some(n) => {
                let time = if below {
                    HopTime::BelowResolution
                } else {
                    HopTime::Millis(n)
                };
                return Some((time, 1));
            },
            None => {},
        },
        None => {},
    }
    let number = match Number::read(value) {
        Some(n) => n,
        None => {
            return None;
        },
    };
    // A bare number is only a time when `ms` follows it; otherwise it is part
    // of an address (or an AS number) and must not be eaten.
    match next {
        Some(next) => {
            if text::same(next, &unit) {
                let time = if below {
                    HopTime::BelowResolution
                } else {
                    HopTime::Millis(number)
                };
                return Some((time, 2));
            }
        },
        None => {},
    }
    None
}

/// Whether the list holds the text.
fn holds(list: &Vec<&[char]>, s: &[char]) -> (res: bool)
    ensures
        res == text::texts_of(list@).contains(s@),
{
    let ghost model = text::texts_of(list@);
    let mut i: usize = 0;
    while i < list.len()
        invariant
            i <= list@.len(),
            model == text::texts_of(list@),
            forall|j: int| 0 <= j < i ==> model[j] != s@,
        decreases list@.len() - i,
    {
        assert(model[i as int] == list@[i as int]@);
        if text::same(list[i], s) {
            return true;
        }
        i = i + 1;
    }
    false
}

/// The strings of a list of texts.
fn strings_of(list: &Vec<&[char]>) -> (res: Vec<String>)
    ensures
        text::strings(res@) == text::texts_of(list@),
{
    let mut res: Vec<String> = Vec::new();
    let mut i: usize = 0;
    while i < list.len()
        invariant
            i <= list@.len(),
            res@.len() == i,
            forall|j: int| 0 <= j < i ==> #[trigger] res@[j]@ == list@[j]@,
        decreases list@.len() - i,
    {
        res.push(text::string_of(list[i]));
        i = i + 1;
    }
    assert(text::strings(res@) == text::texts_of(list@));
    res
}

/// Reads the tokens behind the hop number.
fn scan_tokens(tokens: &Vec<&[char]>) -> (res: (Vec<String>, Vec<HopTime>))
    requires
        tokens@.len() > 0,
    ensures
        ({
            let found = scan(text::texts_of(tokens@).skip(1), nothing());
            text::strings(res.0@) == found.hosts && times_of(res.1@) == found.times_ms
        }),
{
    let ghost all = text::texts_of(tokens@);
    let ghost goal = scan(all.skip(1), nothing());
    let star: Vec<char> = text::chars_of("*");
    let mut hosts: Vec<&[char]> = Vec::new();
    let mut times_ms: Vec<HopTime> = Vec::new();
    let mut i: usize = 1;
    assert(text::texts_of(hosts@) == nothing().hosts);
    assert(times_of(times_ms@) == nothing().times_ms);
    while i < tokens.len()
        invariant
            1 <= i <= tokens@.len(),
            all == text::texts_of(tokens@),
            star@ == "*"@,
            scan(
                all.skip(i as int),
                Found { hosts: text::texts_of(hosts@), times_ms: times_of(times_ms@) },
            ) == goal,
        decreases tokens@.len() - i,
    {
        let token = tokens[i];
        let ghost rest = all.skip(i as int);
        let ghost found = Found {
            hosts: text::texts_of(hosts@),
            times_ms: times_of(times_ms@),
        };
        assert(rest[0] == token@);
        assert(rest.skip(1) == all.skip(i + 1));
        if text::same(token, &star) {
            i = i + 1;
            continue;
        }
        let next: Option<&[char]> = if i + 1 < tokens.len() {
            Some(tokens[i + 1])
        } else {
            None
        };
        assert(second(rest) == match next {
            Some(t) => Some(t@),
            None => None,
        });
        // `1 ms` and `0.512 ms` (value and unit split), `<1` (a Windows
        // sub-millisecond reply), and `1ms` all mean a time.
        match parse_time_token(token, next) {
            Some((time, n)) => {
                assert(rest.skip(n as int) == all.skip(i + n));
                times_ms.push(time);
                assert(times_of(times_ms@) == found.times_ms.push(time@));
                i = i + n;
                continue;
            },
            None => {},
        }
        // Anything left that looks like an address is one, possibly
        // parenthesized in `name (1.2.3.4)` form when the tool resolved
        // names. Prose is skipped rather than collected: Windows writes
        // `Request timed out.` on a silent hop, and three English words in
        // the address column would read as three routers.
        let host = text::trimmed(token, Class::Paren);
        if address::looks_like_address(host) && !holds(&hosts, host) {
            hosts.push(host);
            assert(text::texts_of(hosts@) == found.hosts.push(host@));
        }
        i = i + 1;
    }
    assert(all.skip(tokens@.len() as int) == Seq::<Seq<char>>::empty());
    (strings_of(&hosts), times_ms)
}

/// Read hop lines from either shape:
///
/// - POSIX: `` 1  192.168.0.1  0.512 ms  0.480 ms `` (a silent hop is `*`)
/// - Windows: `  1     1 ms    <1 ms     1 ms  192.168.0.1`
///
/// Both begin with the hop number, which is what anchors the parse; a line
/// that does not is header or trailer and is skipped.
pub fn parse_traceroute(output: &str) -> (res: Vec<Hop>)
    ensures
        models_of(res@) == hops_of(output@),
{
    let chars: Vec<char> = text::chars_of(output);
    let lines = text::lines_of(&chars);
    let ghost all = text::texts_of(lines@);
    let mut hops: Vec<Hop> = Vec::new();
    let mut i: usize = 0;
    assert(models_of(hops@) == hops_of_lines(all.take(0)));
    while i < lines.len()
        invariant
            i <= lines@.len(),
            all == text::texts_of(lines@),
            models_of(hops@) == hops_of_lines(all.take(i as int)),
        decreases lines@.len() - i,
    {
        let ghost earlier = models_of(hops@);
        assert(all.take(i + 1).drop_last() == all.take(i as int));
        assert(all.take(i + 1).last() == lines@[i as int]@);
        let tokens = text::words_of(text::trimmed(lines[i], Class::Space));
        let ghost model = text::texts_of(tokens@);
        i = i + 1;
        assert(model.len() == tokens@.len());
        if tokens.len() == 0 {
            continue;
        }
        assert(model[0] == tokens@[0]@);
        match number::read_u32(tokens[0]) {
            Some(index) => {
                let (hosts, times_ms) = scan_tokens(&tokens);
                let hop = Hop { index, hosts, times_ms };
                hops.push(hop);
                assert(models_of(hops@) == earlier.push(hop@));
            },
            None => {},
        }
    }
    assert(all.take(all.len() as int) == all);
    hops
}

/// The command that traces the path to a host.
pub open spec fn command_model(host: Seq<char>, windows: bool) -> CommandModel {
    let max_hops = number::decimal(MAX_HOPS as nat);
    CommandModel {
        program: program_of(windows),
        args: if windows {
            seq!["-d"@, "-h"@, max_hops, "-w"@, "2000"@, host]
        } else {
            seq!["-n"@, "-q"@, "1"@, "-w"@, "2"@, "-m"@, max_hops, host]
        },
        budget_secs: TRACEROUTE_BUDGET_SECS,
    }
}

/// The name of the program.
pub open spec fn program_of(windows: bool) -> Seq<char> {
    if windows {
        "tracert"@
    } else {
        "traceroute"@
    }
}

/// The name of the program.
fn program(windows: bool) -> (res: &'static str)
    ensures
        res@ == program_of(windows),
{
    if windows {
        "tracert"
    } else {
        "traceroute"
    }
}

/// The command that traces the path to a host: without names, one probe per
/// hop where the tool lets one choose, and two seconds for each answer.
pub fn traceroute_command(host: &str, windows: bool) -> (res: ToolCommand)
    ensures
        res@ == command_model(host@, windows),
{
    let mut args: Vec<String> = Vec::new();
    let max_hops = number::print_u64(MAX_HOPS as u64);
    if windows {
        args.push("-d".to_owned());
        args.push("-h".to_owned());
        args.push(max_hops);
        args.push("-w".to_owned());
        args.push("2000".to_owned());
    } else {
        args.push("-n".to_owned());
        args.push("-q".to_owned());
        args.push("1".to_owned());
        args.push("-w".to_owned());
        args.push("2".to_owned());
        args.push("-m".to_owned());
        args.push(max_hops);
    }
    args.push(host.to_owned());
    let res = ToolCommand {
        program: program(windows).to_owned(),
        args,
        budget_secs: TRACEROUTE_BUDGET_SECS,
    };
    assert(res@.args == command_model(host@, windows).args);
    res
}

/// The text with blanks in front, up to the width.
pub open spec fn right_aligned(s: Seq<char>, width: nat) -> Seq<char> {
    if s.len() < width {
        Seq::new((width - s.len()) as nat, |i: int| ' ') + s
    } else {
        s
    }
}

/// Each time with its unit.
pub open spec fn with_unit(times: Seq<Seq<char>>) -> Seq<Seq<char>> {
    Seq::new(times.len(), |i: int| times[i] + " ms"@)
}

/// The line of a hop: its number, and either a star where nothing answered
/// or the addresses and times. The times are given as they print.
pub open spec fn hop_line(index: u32, hosts: Seq<Seq<char>>, times: Seq<Seq<char>>) -> Seq<char> {
    let number = right_aligned(number::decimal(index as nat), 2);
    if hosts.len() == 0 {
        number + "   *"@
    } else if times.len() == 0 {
        number + "   "@ + text::join(hosts, ", "@)
    } else {
        number + "   "@ + text::join(hosts, ", "@) + "   "@ + text::join(with_unit(times), "  "@)
    }
}

/// Prints a hop number, right-aligned in two columns.
fn print_index(index: u32) -> (res: String)
    ensures
        res@ == right_aligned(number::decimal(index as nat), 2),
{
    let digits = number::print_u64(index as u64);
    if index < 10 {
        let mut res = String::new();
        res.push(' ');
        res.append(digits.as_str());
        assert(res@ == right_aligned(number::decimal(index as nat), 2));
        res
    } else {
        proof {
            number::lemma_decimal(index as nat / 10);
        }
        digits
    }
}

impl Hop {
    /// The line of the hop. `times` holds its times, each with one decimal.
    pub fn render(&self, times: &Vec<String>) -> (res: String)
        requires
            times@.len() == self.times_ms@.len(),
        ensures
            res@ == hop_line(self.index, self@.hosts, text::strings(times@)),
    {
        let mut res = print_index(self.index);
        if self.hosts.len() == 0 {
            res.append("   *");
            return res;
        }
        res.append("   ");
        res.append(text::joined(&self.hosts, ", ").as_str());
        if times.len() > 0 {
            let mut units: Vec<String> = Vec::new();
            let mut i: usize = 0;
            while i < times.len()
                invariant
                    i <= times@.len(),
                    units@.len() == i,
                    forall|j: int| 0 <= j < i ==> #[trigger] units@[j]@ == times@[j]@ + " ms"@,
                decreases times@.len() - i,
            {
                let mut time = times[i].clone();
                time.append(" ms");
                units.push(time);
                i = i + 1;
            }
            assert(text::strings(units@) == with_unit(text::strings(times@)));
            res.append("   ");
            res.append(text::joined(&units, "  ").as_str());
        }
        res
    }
}

/// The verdict on a path. Every hop silent means the path is invisible from
/// here, which is a finding; a few silent hops in the middle is ordinary
/// (plenty of routers simply do not answer).
pub open spec fn verdict_of(hops: Seq<HopModel>) -> CardStatus {
    if forall|i: int| 0 <= i < hops.len() ==> (#[trigger] hops[i]).hosts.len() == 0 {
        CardStatus::Bad
    } else if exists|i: int| 0 <= i < hops.len() && (#[trigger] hops[i]).hosts.len() == 0 {
        CardStatus::Warn
    } else {
        CardStatus::Good
    }
}

/// The lines of the hops. `times` holds the times of each hop as they print.
pub open spec fn hop_lines(hops: Seq<HopModel>, times: Seq<Seq<Seq<char>>>) -> Seq<Seq<char>> {
    Seq::new(hops.len(), |i: int| hop_line(hops[i].index, hops[i].hosts, times[i]))
}

/// The card with the path.
pub open spec fn path_model(
    host: Seq<char>,
    output: Seq<char>,
    hops: Seq<HopModel>,
    times: Seq<Seq<Seq<char>>>,
    messages: Messages,
) -> CardModel {
    let count = text::replace_first(
        messages.net_trace_hops@,
        "{n}"@,
        number::decimal(hops.len()),
    );
    CardModel::new(host + "   "@ + count, hop_lines(hops, times)).status(verdict_of(hops)).raw(
        output,
    )
}

/// The texts of a list of lists of strings.
pub open spec fn nested_strings(v: Seq<Vec<String>>) -> Seq<Seq<Seq<char>>> {
    Seq::new(v.len(), |i: int| text::strings(v[i]@))
}

/// Whether the printed times belong to the hops: one for each time of each
/// hop.
pub open spec fn times_fit(hops: Seq<Hop>, times: Seq<Vec<String>>) -> bool {
    &&& times.len() == hops.len()
    &&& forall|i: int|
        0 <= i < hops.len() ==> (#[trigger] times[i])@.len() == hops[i].times_ms@.len()
}

/// The verdict on a path.
pub fn path_status(hops: &Vec<Hop>) -> (res: CardStatus)
    ensures
        res == verdict_of(models_of(hops@)),
{
    let ghost model = models_of(hops@);
    let mut silent = false;
    let mut answered = false;
    let mut i: usize = 0;
    while i < hops.len()
        invariant
            i <= hops@.len(),
            model == models_of(hops@),
            silent == (exists|j: int| 0 <= j < i && (#[trigger] model[j]).hosts.len() == 0),
            answered == (exists|j: int| 0 <= j < i && (#[trigger] model[j]).hosts.len() != 0),
        decreases hops@.len() - i,
    {
        assert(model[i as int].hosts.len() == hops@[i as int].hosts@.len());
        if hops[i].hosts.len() == 0 {
            silent = true;
        } else {
            answered = true;
        }
        i = i + 1;
    }
    if !answered {
        CardStatus::Bad
    } else if silent {
        CardStatus::Warn
    } else {
        CardStatus::Good
    }
}

/// The card with the path. `times` holds the times of each hop, each with
/// one decimal.
pub fn path_card(
    host: &str,
    output: &str,
    hops: &Vec<Hop>,
    times: &Vec<Vec<String>>,
    messages: &Messages,
) -> (res: NetToolCard)
    requires
        times_fit(hops@, times@),
    ensures
        res@ == path_model(host@, output@, models_of(hops@), nested_strings(times@), *messages),
{
    let ghost model = models_of(hops@);
    let ghost printed = nested_strings(times@);
    let mut lines: Vec<String> = Vec::new();
    let mut i: usize = 0;
    while i < hops.len()
        invariant
            i <= hops@.len(),
            times_fit(hops@, times@),
            model == models_of(hops@),
            printed == nested_strings(times@),
            lines@.len() == i,
            forall|j: int|
                0 <= j < i ==> #[trigger] lines@[j]@ == hop_line(
                    model[j].index,
                    model[j].hosts,
                    printed[j],
                ),
        decreases hops@.len() - i,
    {
        assert(times@[i as int]@.len() == hops@[i as int].times_ms@.len());
        lines.push(hops[i].render(&times[i]));
        i = i + 1;
    }
    assert(text::strings(lines@) == hop_lines(model, printed));
    proof {
        reveal_strlit("{n}");
    }
    let n = number::print_u64(hops.len() as u64);
    let count = text::replaced(messages.net_trace_hops.as_str(), "{n}", n.as_str());
    let mut title = host.to_owned();
    title.append("   ");
    title.append(count.as_str());
    let card = NetToolCard::new(title, lines).status(path_status(hops));
    card.raw(output.to_owned())
}

/// Whether a time prints as the text: one below the resolution as zero, and
/// any other as its number, with one decimal.
pub open spec fn is_printed_time<T: Fn(&Number, u8) -> String>(
    time: HopTime,
    print_number: T,
    printed: String,
) -> bool {
    match time {
        HopTime::BelowResolution => printed@ == "0.0"@,
        HopTime::Millis(n) => call_ensures(print_number, (&n, 1u8), printed),
    }
}

/// Whether the texts are what is printed of the times of the hops.
pub open spec fn are_printed<T: Fn(&Number, u8) -> String>(
    hops: Seq<Hop>,
    print_number: T,
    times: Seq<Vec<String>>,
) -> bool {
    &&& times_fit(hops, times)
    &&& forall|i: int, j: int|
        0 <= i < hops.len() && 0 <= j < hops[i].times_ms@.len() ==> is_printed_time(
            hops[i].times_ms@[j],
            print_number,
            #[trigger] times[i]@[j],
        )
}

/// Whether the cards are those of a traceroute run: the path where the output
/// holds hops, and the tool's own output in any case.
pub open spec fn are_cards<T: Fn(&Number, u8) -> String>(
    cards: Seq<CardModel>,
    host: Seq<char>,
    output: Seq<char>,
    print_number: T,
    messages: Messages,
) -> bool {
    let raw = card::raw_model(output, messages);
    let model = hops_of(output);
    if model.len() > 0 {
        exists|hops: Seq<Hop>, times: Seq<Vec<String>>|
            models_of(hops) == model && #[trigger] are_printed(hops, print_number, times) && cards
                == seq![path_model(host, output, model, nested_strings(times), messages), raw]
    } else {
        cards == seq![raw]
    }
}

/// Prints the times of a hop.
fn print_times<T: Fn(&Number, u8) -> String>(hop: &Hop, print_number: &T) -> (res: Vec<String>)
    requires
        forall|n: Number, decimals: u8| call_requires(*print_number, (&n, decimals)),
    ensures
        res@.len() == hop.times_ms@.len(),
        forall|j: int|
            0 <= j < res@.len() ==> is_printed_time(
                hop.times_ms@[j],
                *print_number,
                #[trigger] res@[j],
            ),
{
    let mut res: Vec<String> = Vec::new();
    let mut j: usize = 0;
    while j < hop.times_ms.len()
        invariant
            j <= hop.times_ms@.len(),
            forall|n: Number, decimals: u8| call_requires(*print_number, (&n, decimals)),
            res@.len() == j,
            forall|k: int|
                0 <= k < j ==> is_printed_time(
                    hop.times_ms@[k],
                    *print_number,
                    #[trigger] res@[k],
                ),
        decreases hop.times_ms@.len() - j,
    {
        let time = match &hop.times_ms[j] {
            HopTime::BelowResolution => "0.0".to_owned(),
            HopTime::Millis(n) => print_number(n, 1),
        };
        res.push(time);
        j = j + 1;
    }
    res
}

/// The cards of a traceroute run. The printer renders a floating-point number
/// with the given number of decimals.
pub fn traceroute_cards<T: Fn(&Number, u8) -> String>(
    host: &str,
    output: &str,
    print_number: T,
    messages: &Messages,
) -> (res: Vec<NetToolCard>)
    requires
        forall|n: Number, decimals: u8| call_requires(print_number, (&n, decimals)),
    ensures
        are_cards(card::cards_of(res@), host@, output@, print_number, *messages),
{
    let raw = card::raw_card(output, messages);
    let mut cards: Vec<NetToolCard> = Vec::new();
    let hops = parse_traceroute(output);
    if hops.len() == 0 {
        cards.push(raw);
        assert(models_of(hops@).len() == 0);
        assert(card::cards_of(cards@) == seq![raw@]);
        return cards;
    }
    let mut times: Vec<Vec<String>> = Vec::new();
    let mut i: usize = 0;
    while i < hops.len()
        invariant
            i <= hops@.len(),
            forall|n: Number, decimals: u8| call_requires(print_number, (&n, decimals)),
            times@.len() == i,
            forall|k: int|
                0 <= k < i ==> (#[trigger] times@[k])@.len() == hops@[k].times_ms@.len(),
            forall|k: int, j: int|
                0 <= k < i && 0 <= j < hops@[k].times_ms@.len() ==> is_printed_time(
                    hops@[k].times_ms@[j],
                    print_number,
                    #[trigger] times@[k]@[j],
                ),
        decreases hops@.len() - i,
    {
        times.push(print_times(&hops[i], &print_number));
        i = i + 1;
    }
    let path = path_card(host, output, &hops, &times, messages);
    cards.push(path);
    cards.push(raw);
    proof {
        assert(models_of(hops@).len() > 0);
        assert(are_printed(hops@, print_number, times@));
        assert(card::cards_of(cards@) == seq![path@, raw@]);
    }
    cards
}

/// Whether the cards answer a traceroute: the cards of its output where it
/// ran, and the one card that says why not where it did not.
pub open spec fn are_answer<T: Fn(&Number, u8) -> String>(
    cards: Seq<CardModel>,
    host: Seq<char>,
    run: ToolRun,
    windows: bool,
    print_number: T,
    messages: Messages,
) -> bool {
    match tool::result_of(program_of(windows), run, TRACEROUTE_BUDGET_SECS, windows, messages) {
        Ok(output) => are_cards(cards, host, output, print_number, messages),
        Err(card) => cards == seq![card],
    }
}

/// Answers a traceroute from how the run of its command ended.
pub fn probe_traceroute<T: Fn(&Number, u8) -> String>(
    host: &str,
    run: ToolRun,
    windows: bool,
    print_number: T,
    messages: &Messages,
) -> (res: Vec<NetToolCard>)
    requires
        forall|n: Number, decimals: u8| call_requires(print_number, (&n, decimals)),
    ensures
        are_answer(card::cards_of(res@), host@, run, windows, print_number, *messages),
{
    let result = tool::tool_result(
        program(windows),
        run,
        TRACEROUTE_BUDGET_SECS,
        windows,
        messages,
    );
    match result {
        Ok(output) => traceroute_cards(host, output.as_str(), print_number, messages),
        Err(card) => {
            let mut cards: Vec<NetToolCard> = Vec::new();
            cards.push(card);
            assert(card::cards_of(cards@) == seq![card@]);
            cards
        },
    }
}

/// The hops of two lists of lines in turn are the hops of the first and then
/// those of the second.
pub proof fn law_hops_follow_lines(a: Seq<Seq<char>>, b: Seq<Seq<char>>)
    ensures
        hops_of_lines(a + b) == hops_of_lines(a) + hops_of_lines(b),
    decreases b.len(),
{
    if b.len() == 0 {
        assert(a + b == a);
        assert(hops_of_lines(a) + Seq::<HopModel>::empty() == hops_of_lines(a));
    } else {
        assert((a + b).drop_last() == a + b.drop_last());
        assert((a + b).last() == b.last());
        law_hops_follow_lines(a, b.drop_last());
    }
}

/// A blank line is no hop.
proof fn lemma_blank_line()
    ensures
        hop_of_line(Seq::empty()) is None,
{
    let none = Seq::<char>::empty();
    assert(text::trim(none, Class::Space) == none);
    assert(text::words(none).len() == 0);
}

/// The hops of two texts joined by a line feed are the hops of the first and
/// then those of the second.
pub proof fn law_hops_of_joined_texts(a: Seq<char>, b: Seq<char>)
    ensures
        hops_of(a + seq!['\n'] + b) == hops_of(a) + hops_of(b),
{
    let open = text::lines(a);
    let closed = text::lines(a + seq!['\n']);
    text::lemma_lines_joined(a, b);
    law_hops_follow_lines(closed, text::lines(b));
    text::lemma_lines_closed(a);
    assert(closed.drop_last() == if a.len() == 0 || a.last() == '\n' {
        open
    } else {
        open.drop_last()
    });
    if a.len() == 0 || a.last() == '\n' {
        assert(closed.last() == Seq::<char>::empty());
        lemma_blank_line();
    } else {
        text::lemma_trim_without_return(open.last());
        assert(hop_of_line(closed.last()) == hop_of_line(open.last()));
    }
    assert(hops_of_lines(closed) == hops_of_lines(open));
}

/// A line that begins with a hop number is one hop of that number, whatever
/// follows, so a silent hop keeps its slot; any other line is none.
pub proof fn law_numbered_line_is_one_hop(line: Seq<char>)
    ensures
        match hop_number(line) {
            Some(index) => hops_of_lines(seq![line]).len() == 1 && hops_of_lines(
                seq![line],
            )[0].index == index,
            None => hops_of_lines(seq![line]).len() == 0,
        },
{
    assert(seq![line].drop_last() == Seq::<Seq<char>>::empty());
    assert(hops_of_lines(seq![line].drop_last()) == Seq::<HopModel>::empty());
}

proof fn lemma_scan_keeps_hosts(tokens: Seq<Seq<char>>, found: Found)
    requires
        found.hosts.no_duplicates(),
        forall|i: int| 0 <= i < found.hosts.len() ==> address::is_address(
            #[trigger] found.hosts[i],
        ),
    ensures
        scan(tokens, found).hosts.no_duplicates(),
        forall|i: int|
            0 <= i < scan(tokens, found).hosts.len() ==> address::is_address(
                #[trigger] scan(tokens, found).hosts[i],
            ),
    decreases tokens.len(),
{
    if tokens.len() > 0 {
        if tokens[0] == "*"@ {
            lemma_scan_keeps_hosts(tokens.skip(1), found);
        } else {
            match time_token(tokens[0], second(tokens)) {
                Some((time, n)) => {
                    let next = Found { times_ms: found.times_ms.push(time), ..found };
                    lemma_scan_keeps_hosts(tokens.skip(n), next);
                },
                None => {
                    lemma_scan_keeps_hosts(tokens.skip(1), with_token(found, tokens[0]));
                },
            }
        }
    }
}

/// The hosts of a hop are addresses, and none is there twice.
pub proof fn law_hosts_are_distinct_addresses(line: Seq<char>)
    ensures
        hop_of_line(line) matches Some(hop) ==> hop.hosts.no_duplicates() && forall|i: int|
            0 <= i < hop.hosts.len() ==> address::is_address(#[trigger] hop.hosts[i]),
{
    let tokens = text::words(text::trim(line, Class::Space));
    lemma_scan_keeps_hosts(tokens.skip(1), nothing());
}

/// Whether the token at `j` is read, from the token at `from` on, as a word:
/// as neither a star nor a part of a time.
pub open spec fn is_word_at(tokens: Seq<Seq<char>>, from: int, j: int) -> bool
    decreases tokens.len() - from,
{
    if from < 0 || from >= tokens.len() || j < from {
        false
    } else if tokens[from] == "*"@ {
        is_word_at(tokens, from + 1, j)
    } else {
        match time_token(tokens[from], second(tokens.skip(from))) {
            Some((_, n)) => is_word_at(tokens, from + n, j),
            None => j == from || is_word_at(tokens, from + 1, j),
        }
    }
}

/// Whether hosts stand at the given places of a line: each is a word behind
/// the hop number without the brackets around it, in the order of the line,
/// and at the first place where it is a word.
pub open spec fn stand_at(hosts: Seq<Seq<char>>, tokens: Seq<Seq<char>>, places: Seq<int>) -> bool {
    &&& places.len() == hosts.len()
    &&& forall|k: int|
        0 <= k < places.len() ==> 1 <= #[trigger] places[k] < tokens.len() && is_word_at(
            tokens,
            1,
            places[k],
        ) && hosts[k] == text::trim(tokens[places[k]], Class::Paren)
    &&& forall|k: int, l: int|
        0 <= k < l < places.len() ==> #[trigger] places[k] < #[trigger] places[l]
    &&& forall|k: int, j: int|
        0 <= k < places.len() && j < places[k] && #[trigger] is_word_at(tokens, 1, j)
            ==> text::trim(tokens[j], Class::Paren) != #[trigger] hosts[k]
}

/// Whether every address among the words before a place is one of the hosts.
pub open spec fn none_missing(hosts: Seq<Seq<char>>, tokens: Seq<Seq<char>>, end: int) -> bool {
    forall|j: int|
        j < end && #[trigger] is_word_at(tokens, 1, j) && address::is_address(
            text::trim(tokens[j], Class::Paren),
        ) ==> hosts.contains(text::trim(tokens[j], Class::Paren))
}

/// Whether the reading of the tokens comes past the place `i`.
spec fn comes_past(tokens: Seq<Seq<char>>, i: int) -> bool {
    forall|j: int| i <= j ==> #[trigger] is_word_at(tokens, 1, j) == is_word_at(tokens, i, j)
}

/// What one more word adds to the hosts and their places.
proof fn lemma_one_more_word(
    hosts: Seq<Seq<char>>,
    tokens: Seq<Seq<char>>,
    places: Seq<int>,
    i: int,
)
    requires
        1 <= i < tokens.len(),
        is_word_at(tokens, 1, i),
        stand_at(hosts, tokens, places),
        none_missing(hosts, tokens, i),
        forall|k: int| 0 <= k < places.len() ==> #[trigger] places[k] < i,
        address::is_address(text::trim(tokens[i], Class::Paren)),
        !hosts.contains(text::trim(tokens[i], Class::Paren)),
    ensures
        stand_at(hosts.push(text::trim(tokens[i], Class::Paren)), tokens, places.push(i)),
        none_missing(hosts.push(text::trim(tokens[i], Class::Paren)), tokens, i + 1),
{
    let host = text::trim(tokens[i], Class::Paren);
    let more = hosts.push(host);
    let further = places.push(i);
    assert forall|k: int, j: int|
        0 <= k < further.len() && j < further[k] && #[trigger] is_word_at(
            tokens,
            1,
            j,
        ) implies text::trim(tokens[j], Class::Paren) != #[trigger] more[k] by {
        if k < places.len() {
            assert(hosts[k] == more[k]);
        }
    }
    assert forall|j: int|
        j < i + 1 && #[trigger] is_word_at(tokens, 1, j) && address::is_address(
            text::trim(tokens[j], Class::Paren),
        ) implies more.contains(text::trim(tokens[j], Class::Paren)) by {
        if j < i {
            let k = hosts.index_of(text::trim(tokens[j], Class::Paren));
            assert(more[k] == hosts[k]);
        } else {
            assert(more[hosts.len() as int] == host);
        }
    }
}

proof fn lemma_scan_places(tokens: Seq<Seq<char>>, i: int, found: Found, places: Seq<int>) -> (res:
    Seq<int>)
    requires
        1 <= i <= tokens.len(),
        comes_past(tokens, i),
        stand_at(found.hosts, tokens, places),
        none_missing(found.hosts, tokens, i),
        forall|k: int| 0 <= k < places.len() ==> #[trigger] places[k] < i,
    ensures
        stand_at(scan(tokens.skip(i), found).hosts, tokens, res),
        none_missing(scan(tokens.skip(i), found).hosts, tokens, tokens.len() as int),
    decreases tokens.len() - i,
{
    let rest = tokens.skip(i);
    if i == tokens.len() {
        places
    } else {
        assert(rest[0] == tokens[i]);
        assert(rest.skip(1) == tokens.skip(i + 1));
        assert(is_word_at(tokens, 1, i) == is_word_at(tokens, i, i));
        if tokens[i] == "*"@ {
            assert(!is_word_at(tokens, i + 1, i));
            lemma_scan_places(tokens, i + 1, found, places)
        } else {
            match time_token(tokens[i], second(rest)) {
                Some((time, n)) => {
                    let next = Found { times_ms: found.times_ms.push(time), ..found };
                    assert(rest.skip(n) == tokens.skip(i + n));
                    assert(!is_word_at(tokens, i + n, i));
                    assert(n == 2 ==> !is_word_at(tokens, i + n, i + 1));
                    assert(is_word_at(tokens, 1, i + 1) == is_word_at(tokens, i, i + 1));
                    lemma_scan_places(tokens, i + n, next, places)
                },
                None => {
                    let host = text::trim(tokens[i], Class::Paren);
                    let next = with_token(found, tokens[i]);
                    if address::is_address(host) && !found.hosts.contains(host) {
                        lemma_one_more_word(found.hosts, tokens, places, i);
                        lemma_scan_places(tokens, i + 1, next, places.push(i))
                    } else {
                        lemma_scan_places(tokens, i + 1, next, places)
                    }
                },
            }
        }
    }
}

/// The hosts of a hop are words of its own line behind the hop number,
/// without the brackets around them, in the order in which they first appear;
/// and every address among those words is one of them.
pub proof fn law_hosts_are_words_of_their_line(line: Seq<char>)
    ensures
        ({
            let tokens = text::words(text::trim(line, Class::Space));
            hop_of_line(line) matches Some(hop) ==> (exists|places: Seq<int>|
                stand_at(hop.hosts, tokens, places)) && none_missing(
                hop.hosts,
                tokens,
                tokens.len() as int,
            )
        }),
{
    let tokens = text::words(text::trim(line, Class::Space));
    if hop_of_line(line) is Some {
        let none = Seq::<int>::empty();
        assert(stand_at(nothing().hosts, tokens, none));
        assert forall|j: int| j < 1 implies !(#[trigger] is_word_at(tokens, 1, j)) by {}
        let places = lemma_scan_places(tokens, 1, nothing(), none);
        assert(stand_at(hop_of_line(line)->0.hosts, tokens, places));
    }
}

/// Every hop of a run is that of one of the lines.
pub proof fn law_every_hop_has_its_line(output: Seq<char>, k: int)
    requires
        0 <= k < hops_of(output).len(),
    ensures
        exists|l: int|
            0 <= l < text::lines(output).len() && hop_of_line(#[trigger] text::lines(output)[l])
                == Some(hops_of(output)[k]),
{
    let l = lemma_line_of_hop(text::lines(output), k);
    assert(hop_of_line(text::lines(output)[l]) == Some(hops_of(output)[k]));
}

proof fn lemma_line_of_hop(lines: Seq<Seq<char>>, k: int) -> (l: int)
    requires
        0 <= k < hops_of_lines(lines).len(),
    ensures
        0 <= l < lines.len(),
        hop_of_line(lines[l]) == Some(hops_of_lines(lines)[k]),
    decreases lines.len(),
{
    let shorter = lines.drop_last();
    if k < hops_of_lines(shorter).len() {
        let l = lemma_line_of_hop(shorter, k);
        assert(shorter[l] == lines[l]);
        l
    } else {
        lines.len() - 1
    }
}

/// Whether a time can be taken: it is below the resolution or a number.
pub open spec fn is_time(time: TimeModel) -> bool {
    time matches TimeModel::Millis(n) ==> number::is_number(n)
}

/// Whether all of the times can be taken.
pub open spec fn are_times(times: Seq<TimeModel>) -> bool {
    forall|i: int| 0 <= i < times.len() ==> is_time(#[trigger] times[i])
}

proof fn lemma_scan_keeps_times(tokens: Seq<Seq<char>>, found: Found)
    requires
        are_times(found.times_ms),
    ensures
        are_times(scan(tokens, found).times_ms),
    decreases tokens.len(),
{
    if tokens.len() > 0 {
        if tokens[0] == "*"@ {
            lemma_scan_keeps_times(tokens.skip(1), found);
        } else {
            match time_token(tokens[0], second(tokens)) {
                Some((time, n)) => {
                    let next = Found { times_ms: found.times_ms.push(time), ..found };
                    assert(is_time(time));
                    lemma_scan_keeps_times(tokens.skip(n), next);
                },
                None => {
                    lemma_scan_keeps_times(tokens.skip(1), with_token(found, tokens[0]));
                },
            }
        }
    }
}

/// Every time of a hop is below the resolution or denotes a number.
pub proof fn law_hop_holds_times(line: Seq<char>)
    ensures
        hop_of_line(line) matches Some(hop) ==> are_times(hop.times_ms),
{
    let tokens = text::words(text::trim(line, Class::Space));
    lemma_scan_keeps_times(tokens.skip(1), nothing());
}

/// A token that is neither a time nor an address, such as a word of a
/// sentence, is passed over.
pub proof fn law_prose_is_skipped(token: Seq<char>, rest: Seq<Seq<char>>, found: Found)
    requires
        time_token(token, second(seq![token] + rest)) is None,
        !address::is_address(text::trim(token, Class::Paren)),
    ensures
        scan(seq![token] + rest, found) == scan(rest, found),
{
    assert((seq![token] + rest).skip(1) == rest);
}

/// A token is a time only with the unit `ms` at its end or as the next token.
pub proof fn law_time_needs_its_unit(token: Seq<char>, next: Option<Seq<char>>)
    ensures
        time_token(token, next) is Some ==> text::ends_with(token, "ms"@) || next == Some("ms"@),
{
    reveal_strlit("ms");
    let value = token.skip(1);
    if token.len() > 0 && text::ends_with(value, "ms"@) {
        assert(token.subrange(token.len() - 2, token.len() as int) == value.subrange(
            value.len() - 2,
            value.len() as int,
        ));
    }
}

/// An upper bound is a time where its number is one, takes as many tokens,
/// and counts as below the resolution rather than being dropped.
pub proof fn law_upper_bound_is_a_time(value: Seq<char>, next: Option<Seq<char>>)
    requires
        value.len() > 0 ==> value[0] != '<',
    ensures
        match (time_token(value, next), time_token(seq!['<'] + value, next)) {
            (Some((_, n)), Some((time, m))) => n == m && time is BelowResolution,
            (None, None) => true,
            _ => false,
        },
{
    assert((seq!['<'] + value).skip(1) == value);
}

proof fn lemma_stars_find_nothing(tokens: Seq<Seq<char>>, found: Found)
    requires
        forall|i: int| 0 <= i < tokens.len() ==> #[trigger] tokens[i] == "*"@,
    ensures
        scan(tokens, found) == found,
    decreases tokens.len(),
{
    if tokens.len() > 0 {
        assert(forall|i: int|
            0 <= i < tokens.len() - 1 ==> #[trigger] tokens.skip(1)[i] == tokens[i + 1]);
        lemma_stars_find_nothing(tokens.skip(1), found);
    }
}

/// A hop number with nothing but stars behind it is a silent hop.
pub proof fn law_stars_are_silent(line: Seq<char>)
    requires
        hop_number(line) is Some,
        ({
            let tokens = text::words(text::trim(line, Class::Space));
            forall|i: int| 1 <= i < tokens.len() ==> #[trigger] tokens[i] == "*"@
        }),
    ensures
        hop_of_line(line) == Some(
            HopModel {
                index: hop_number(line)->0,
                hosts: Seq::empty(),
                times_ms: Seq::empty(),
            },
        ),
{
    let tokens = text::words(text::trim(line, Class::Space));
    assert(forall|i: int|
        0 <= i < tokens.skip(1).len() ==> #[trigger] tokens.skip(1)[i] == tokens[i + 1]);
    lemma_stars_find_nothing(tokens.skip(1), nothing());
}

/// The tool's own output is always shown, as the last card, and is what the
/// copy action of every card yields; without hops it stands alone.
pub proof fn law_raw_output_is_always_shown<T: Fn(&Number, u8) -> String>(
    cards: Seq<CardModel>,
    host: Seq<char>,
    output: Seq<char>,
    print_number: T,
    messages: Messages,
)
    requires
        are_cards(cards, host, output, print_number, messages),
    ensures
        cards.len() > 0,
        cards.last() == card::raw_model(output, messages),
        forall|i: int| 0 <= i < cards.len() ==> (#[trigger] cards[i]).raw == Some(output),
        hops_of(output).len() == 0 <==> cards.len() == 1,
{
}

/// A number with its unit behind it, in the same token or in the next one, is
/// a time of exactly that number; with `<` in front it is one below the
/// resolution. Each adds one time behind those found before it.
pub proof fn law_every_time_is_kept(n: Seq<char>, rest: Seq<Seq<char>>, found: Found)
    requires
        number::is_number(n),
    ensures
        ({
            let more = Found {
                hosts: found.hosts,
                times_ms: found.times_ms.push(TimeModel::Millis(n)),
            };
            let below = Found {
                hosts: found.hosts,
                times_ms: found.times_ms.push(TimeModel::BelowResolution),
            };
            &&& scan(seq![n, "ms"@] + rest, found) == scan(rest, more)
            &&& scan(seq![n + "ms"@] + rest, found) == scan(rest, more)
            &&& scan(seq![seq!['<'] + n, "ms"@] + rest, found) == scan(rest, below)
            &&& scan(seq![seq!['<'] + n + "ms"@] + rest, found) == scan(rest, below)
        }),
{
    reveal_strlit("ms");
    reveal_strlit("*");
    number::lemma_number_ends(n);
    let apart = seq![n, "ms"@] + rest;
    let whole = seq![n + "ms"@] + rest;
    let bound = seq!['<'] + n;
    let apart_below = seq![bound, "ms"@] + rest;
    let whole_below = seq![bound + "ms"@] + rest;
    assert(apart.skip(2) == rest);
    assert(whole.skip(1) == rest);
    assert(apart_below.skip(2) == rest);
    assert(whole_below.skip(1) == rest);
    assert(!text::ends_with(n, "ms"@)) by {
        if text::ends_with(n, "ms"@) {
            assert(n.subrange(n.len() - 2, n.len() as int)[1] == n.last());
        }
    }
    let joined = n + "ms"@;
    assert(joined.subrange(joined.len() - 2, joined.len() as int) == "ms"@);
    assert(joined.take(joined.len() - 2) == n);
    assert(joined[0] == n[0]);
    assert(bound.skip(1) == n);
    assert((bound + "ms"@).skip(1) == joined);
    assert((bound + "ms"@)[0] == '<');
    assert(n != "*"@ && joined != "*"@ && bound != "*"@ && bound + "ms"@ != "*"@);
}

/// Whether a time is the one that a token stands for.
pub open spec fn is_time_of(token: Seq<char>, next: Option<Seq<char>>, time: TimeModel) -> bool {
    match time {
        TimeModel::BelowResolution => token.len() > 0 && token[0] == '<',
        TimeModel::Millis(n) => {
            &&& number::is_number(n)
            &&& token[0] != '<'
            &&& token == n + "ms"@ || (token == n && next == Some("ms"@))
        },
    }
}

/// A token that is a time is one of the number that it prints, and takes the
/// next token with it only where that is its unit.
pub proof fn law_time_token_is_its_number(token: Seq<char>, next: Option<Seq<char>>)
    ensures
        time_token(token, next) matches Some((time, n)) ==> is_time_of(token, next, time) && (n == 1
            || (n == 2 && next == Some("ms"@))),
{
    reveal_strlit("ms");
    if let Some((time, n)) = time_token(token, next) {
        if text::ends_with(token, "ms"@) {
            assert(token == token.take(token.len() - 2) + "ms"@);
        }
        if let TimeModel::Millis(m) = time {
            number::lemma_number_ends(m);
        }
    }
}

/// A star stands for no answer and adds nothing.
pub proof fn law_star_adds_nothing(rest: Seq<Seq<char>>, found: Found)
    ensures
        scan(seq!["*"@] + rest, found) == scan(rest, found),
        scan(Seq::empty(), found) == found,
{
    assert((seq!["*"@] + rest).skip(1) == rest);
}

/// An address that is no time is added behind the hosts found before it,
/// unless it is one of them, with or without round brackets around it.
pub proof fn law_address_is_added_once(host: Seq<char>, rest: Seq<Seq<char>>, found: Found)
    requires
        address::is_address(host),
        host[0] != '(' && host[0] != ')' && host.last() != '(' && host.last() != ')',
        time_token(host, second(seq![host] + rest)) is None,
    ensures
        ({
            let more = if found.hosts.contains(host) {
                found
            } else {
                Found { hosts: found.hosts.push(host), times_ms: found.times_ms }
            };
            &&& scan(seq![host] + rest, found) == scan(rest, more)
            &&& scan(seq![seq!['('] + host + seq![')']] + rest, found) == scan(rest, more)
        }),
{
    reveal_strlit("*");
    reveal_strlit("ms");
    reveal_strlit("inf");
    reveal_strlit("infinity");
    reveal_strlit("nan");
    let none = Seq::<char>::empty();
    let plain = seq![host] + rest;
    let token = seq!['('] + host + seq![')'];
    let bracketed = seq![token] + rest;
    assert(plain.skip(1) == rest);
    assert(bracketed.skip(1) == rest);
    lemma_address_is_not_empty(host);
    text::law_trim(none, host, none, Class::Paren);
    assert(none + host + none == host);
    text::law_trim(seq!['('], host, seq![')'], Class::Paren);
    assert(host != "*"@) by {
        if host == "*"@ {
            lemma_star_is_no_address();
        }
    }
    assert(token != "*"@);
    assert(token[0] == '(' && token.last() == ')');
    assert(!text::ends_with(token, "ms"@)) by {
        if text::ends_with(token, "ms"@) {
            assert(token.subrange(token.len() - 2, token.len() as int)[1] == token.last());
        }
    }
    assert(!number::is_number(token)) by {
        if number::is_number(token) {
            number::lemma_number_begins(token);
        }
    }
    assert(time_token(token, second(bracketed)) is None);
}

proof fn lemma_address_is_not_empty(host: Seq<char>)
    requires
        address::is_address(host),
    ensures
        host.len() > 0,
{
    text::lemma_trailing(host, Class::Dot);
}

proof fn lemma_star_is_no_address()
    ensures
        !address::is_address("*"@),
{
    reveal_strlit("*");
    let star = "*"@;
    assert(star == seq!['*']);
    text::lemma_trailing_is(star, Class::Dot, 0);
    assert(star.take(1) == star);
    assert(text::trim_end(star, Class::Dot) == star);
    assert(!star.contains('.'));
    address::law_foreign_characters_are_no_addresses(star, 0);
}

/// Whether the token at `j` is read, from the token at `from` on, as a time.
pub open spec fn is_time_at(tokens: Seq<Seq<char>>, from: int, j: int) -> bool
    decreases tokens.len() - from,
{
    if from < 0 || from >= tokens.len() || j < from {
        false
    } else if tokens[from] == "*"@ {
        is_time_at(tokens, from + 1, j)
    } else {
        match time_token(tokens[from], second(tokens.skip(from))) {
            Some((_, n)) => j == from || is_time_at(tokens, from + n, j),
            None => is_time_at(tokens, from + 1, j),
        }
    }
}

/// Whether times stand at the given places of a line: one for each token that
/// is read as a time, in the order of the line, and each that of its token.
pub open spec fn times_stand_at(
    times: Seq<TimeModel>,
    tokens: Seq<Seq<char>>,
    places: Seq<int>,
) -> bool {
    &&& places.len() == times.len()
    &&& forall|k: int|
        0 <= k < places.len() ==> 1 <= #[trigger] places[k] < tokens.len() && is_time_at(
            tokens,
            1,
            places[k],
        ) && is_time_of(tokens[places[k]], second(tokens.skip(places[k])), times[k])
    &&& forall|k: int, l: int|
        0 <= k < l < places.len() ==> #[trigger] places[k] < #[trigger] places[l]
}

/// Whether every token before a place that is read as a time is among places.
pub open spec fn no_time_missing(places: Seq<int>, tokens: Seq<Seq<char>>, end: int) -> bool {
    forall|j: int| j < end && #[trigger] is_time_at(tokens, 1, j) ==> places.contains(j)
}

/// Whether the reading of times comes past the place `i`.
spec fn times_come_past(tokens: Seq<Seq<char>>, i: int) -> bool {
    forall|j: int| i <= j ==> #[trigger] is_time_at(tokens, 1, j) == is_time_at(tokens, i, j)
}

proof fn lemma_time_places(tokens: Seq<Seq<char>>, i: int, found: Found, places: Seq<int>) -> (res:
    Seq<int>)
    requires
        1 <= i <= tokens.len(),
        times_come_past(tokens, i),
        times_stand_at(found.times_ms, tokens, places),
        no_time_missing(places, tokens, i),
        forall|k: int| 0 <= k < places.len() ==> #[trigger] places[k] < i,
    ensures
        times_stand_at(scan(tokens.skip(i), found).times_ms, tokens, res),
        no_time_missing(res, tokens, tokens.len() as int),
    decreases tokens.len() - i,
{
    let rest = tokens.skip(i);
    if i == tokens.len() {
        places
    } else {
        assert(rest[0] == tokens[i]);
        assert(rest.skip(1) == tokens.skip(i + 1));
        assert(is_time_at(tokens, 1, i) == is_time_at(tokens, i, i));
        assert(!is_time_at(tokens, i + 1, i));
        if tokens[i] == "*"@ {
            lemma_time_places(tokens, i + 1, found, places)
        } else {
            match time_token(tokens[i], second(rest)) {
                Some((time, n)) => {
                    let next = Found { times_ms: found.times_ms.push(time), ..found };
                    assert(rest.skip(n) == tokens.skip(i + n));
                    assert(is_time_at(tokens, 1, i + 1) == is_time_at(tokens, i, i + 1));
                    assert(n == 2 ==> !is_time_at(tokens, i + n, i + 1));
                    law_time_token_is_its_number(tokens[i], second(rest));
                    let further = places.push(i);
                    assert forall|j: int| j < i + n && #[trigger] is_time_at(
                        tokens,
                        1,
                        j,
                    ) implies further.contains(j) by {
                        if j < i {
                            let k = places.index_of(j);
                            assert(further[k] == j);
                        } else {
                            assert(j == i);
                            assert(further[places.len() as int] == i);
                        }
                    }
                    lemma_time_places(tokens, i + n, next, further)
                },
                None => {
                    lemma_time_places(tokens, i + 1, with_token(found, tokens[i]), places)
                },
            }
        }
    }
}

/// The times of a hop are those of all tokens behind the hop number that are
/// read as times, one for each, in the order of the line; a token without `<`
/// is a time of exactly the number that it prints.
pub proof fn law_times_are_those_of_their_line(line: Seq<char>)
    ensures
        ({
            let tokens = text::words(text::trim(line, Class::Space));
            hop_of_line(line) matches Some(hop) ==> exists|places: Seq<int>|
                times_stand_at(hop.times_ms, tokens, places) && #[trigger] no_time_missing(
                    places,
                    tokens,
                    tokens.len() as int,
                )
        }),
{
    let tokens = text::words(text::trim(line, Class::Space));
    if hop_of_line(line) is Some {
        let none = Seq::<int>::empty();
        assert(times_stand_at(nothing().times_ms, tokens, none));
        assert forall|j: int| j < 1 implies !(#[trigger] is_time_at(tokens, 1, j)) by {}
        let places = lemma_time_places(tokens, 1, nothing(), none);
        assert(times_stand_at(hop_of_line(line)->0.times_ms, tokens, places));
        assert(no_time_missing(places, tokens, tokens.len() as int));
    }
}

/// A line that begins with a number in decimal and white space is the hop of
/// that number, and what stands behind is what its words say; white space in
/// front makes no difference.
pub proof fn law_hop_of_a_numbered_line(index: u32, c: char, rest: Seq<char>)
    requires
        text::is_space(c),
    ensures
        ({
            let line = number::decimal(index as nat) + seq![c] + rest;
            let found = scan(text::words(rest), nothing());
            &&& hop_of_line(line) == Some(
                HopModel { index, hosts: found.hosts, times_ms: found.times_ms },
            )
            &&& hop_of_line(seq![c] + line) == hop_of_line(line)
            &&& hop_of_line(number::decimal(index as nat)) == Some(
                HopModel { index, hosts: Seq::empty(), times_ms: Seq::empty() },
            )
        }),
{
    let w = number::decimal(index as nat);
    number::lemma_decimal(index as nat);
    number::law_printed_number_reads_back(index);
    assert forall|i: int| 0 <= i < w.len() implies !text::is_space(#[trigger] w[i]) by {
        assert(text::is_digit(w[i]));
    }
    let line = w + seq![c] + rest;
    text::law_words(w, c, rest);
    text::law_words(w, c, line);
    text::law_trimmed_words(line);
    text::law_trimmed_words(seq![c] + line);
    text::law_trimmed_words(w);
    assert((seq![w] + text::words(rest)).skip(1) == text::words(rest));
    assert(seq![w].skip(1) == Seq::<Seq<char>>::empty());
    assert(hop_of_line(line)->0.hosts == scan(text::words(rest), nothing()).hosts);
}

/// A line whose first word begins with anything but a digit or a plus sign is
/// no hop, and neither is one without words.
pub proof fn law_other_lines_are_no_hops(w: Seq<char>, c: char, rest: Seq<char>)
    requires
        text::is_word(w),
        !text::is_digit(w[0]) && w[0] != '+',
        text::is_space(c),
    ensures
        hop_of_line(w + seq![c] + rest) is None,
        hop_of_line(w) is None,
        hop_of_line(Seq::empty()) is None,
{
    text::law_words(w, c, rest);
    text::law_trimmed_words(w + seq![c] + rest);
    text::law_trimmed_words(w);
    lemma_blank_line();
}

/// The verdict on a path with hops: bad where none of them answered, a warning
/// where some did not, and good where all did.
pub proof fn law_verdict_on_a_path(hops: Seq<HopModel>, i: int)
    requires
        0 <= i < hops.len(),
    ensures
        (forall|j: int| 0 <= j < hops.len() ==> (#[trigger] hops[j]).hosts.len() == 0)
            ==> verdict_of(hops) == CardStatus::Bad,
        (forall|j: int| 0 <= j < hops.len() ==> (#[trigger] hops[j]).hosts.len() > 0)
            ==> verdict_of(hops) == CardStatus::Good,
        forall|j: int|
            0 <= j < hops.len() && hops[i].hosts.len() == 0 && (#[trigger] hops[j]).hosts.len() > 0
                ==> verdict_of(hops) == CardStatus::Warn,
{
    assert(hops[i].hosts.len() >= 0);
}

/// The line of a hop begins with its number, right-aligned in two columns and
/// with three blanks behind it; a star follows where nothing answered, and
/// else the hosts between commas and the times behind three more blanks, each
/// with its unit.
pub proof fn law_line_of_a_hop(index: u32, hosts: Seq<Seq<char>>, times: Seq<Seq<char>>)
    ensures
        ({
            let digits = number::decimal(index as nat);
            let start = (if index < 10 {
                seq![' '] + digits
            } else {
                digits
            }) + seq![' ', ' ', ' '];
            let line = hop_line(index, hosts, times);
            &&& hosts.len() == 0 ==> line == start + seq!['*']
            &&& hosts.len() > 0 && times.len() == 0 ==> line == start + text::join(hosts, ", "@)
            &&& hosts.len() > 0 && times.len() == 1 ==> line == start + text::join(hosts, ", "@)
                + seq![' ', ' ', ' '] + times[0] + seq![' ', 'm', 's']
            &&& hosts.len() > 0 && times.len() > 1 ==> line == hop_line(
                index,
                hosts,
                times.drop_last(),
            ) + seq![' ', ' '] + times.last() + seq![' ', 'm', 's']
        }),
{
    reveal_strlit("   ");
    reveal_strlit("   *");
    reveal_strlit("  ");
    reveal_strlit(" ms");
    let digits = number::decimal(index as nat);
    let start = (if index < 10 {
        seq![' '] + digits
    } else {
        digits
    }) + seq![' ', ' ', ' '];
    if index >= 10 {
        number::lemma_decimal(index as nat / 10);
        assert(digits.len() >= 2);
        assert(right_aligned(digits, 2) == digits);
    } else {
        assert(digits.len() == 1);
        assert(right_aligned(digits, 2) == seq![' '] + digits);
    }
    let line = hop_line(index, hosts, times);
    let hosts_text = text::join(hosts, ", "@);
    if hosts.len() == 0 {
        assert(line == start + seq!['*']);
    } else if times.len() == 0 {
        assert(line == start + hosts_text);
    } else {
        let units = with_unit(times);
        if times.len() == 1 {
            assert(text::join(units, "  "@) == times[0] + " ms"@);
            assert(line == start + hosts_text + seq![' ', ' ', ' '] + times[0] + seq![
                ' ',
                'm',
                's',
            ]);
        } else {
            let fewer = times.drop_last();
            assert(with_unit(fewer) == units.drop_last());
            text::lemma_join_last(units, "  "@);
            assert(units.last() == times.last() + " ms"@);
            assert(line == hop_line(index, hosts, fewer) + seq![' ', ' '] + times.last() + seq![
                ' ',
                'm',
                's',
            ]);
        }
    }
}

/// The card with a path names the host and the number of hops, has one line
/// for each hop, and holds the output.
pub proof fn law_path_card(
    host: Seq<char>,
    output: Seq<char>,
    hops: Seq<HopModel>,
    times: Seq<Seq<Seq<char>>>,
    messages: Messages,
    a: Seq<char>,
    b: Seq<char>,
)
    requires
        messages.net_trace_hops@ == a + "{n}"@ + b,
        !a.contains('{'),
    ensures
        ({
            let card = path_model(host, output, hops, times, messages);
            &&& card.title == host + "   "@ + a + number::decimal(hops.len()) + b
            &&& card.lines.len() == hops.len()
            &&& forall|i: int|
                0 <= i < hops.len() ==> #[trigger] card.lines[i] == hop_line(
                    hops[i].index,
                    hops[i].hosts,
                    times[i],
                )
            &&& card.raw == Some(output)
            &&& card.status == Some(verdict_of(hops))
        }),
{
    reveal_strlit("{n}");
    let n = number::decimal(hops.len());
    text::law_replace_first(a, "{n}"@, b, n);
    assert(host + "   "@ + (a + n + b) == host + "   "@ + a + n + b);
}

/// The command traces to the host, its last argument, over at most twenty hops
/// and with two seconds for each answer, on either platform without names.
pub proof fn law_traceroute_command(host: Seq<char>, windows: bool)
    ensures
        ({
            let command = command_model(host, windows);
            &&& command.args.last() == host
            &&& command.budget_secs == 90
            &&& windows ==> command.program == "tracert"@ && command.args == seq![
                "-d"@,
                "-h"@,
                seq!['2', '0'],
                "-w"@,
                "2000"@,
                host,
            ]
            &&& !windows ==> command.program == "traceroute"@ && command.args == seq![
                "-n"@,
                "-q"@,
                "1"@,
                "-w"@,
                "2"@,
                "-m"@,
                seq!['2', '0'],
                host,
            ]
        }),
{
    reveal_with_fuel(number::decimal, 3);
    assert(number::decimal(20) == seq!['2', '0']);
}

/// A run that did not finish is answered by one card, the one that says why;
/// one that finished by the cards of its output.
pub proof fn law_answer_of_a_run<T: Fn(&Number, u8) -> String>(
    cards: Seq<CardModel>,
    host: Seq<char>,
    run: ToolRun,
    windows: bool,
    print_number: T,
    messages: Messages,
)
    requires
        are_answer(cards, host, run, windows, print_number, messages),
    ensures
        ({
            let program = if windows {
                "tracert"@
            } else {
                "traceroute"@
            };
            match run {
                ToolRun::Finished { stdout, stderr } => {
                    let output = tool::both_outputs(
                        tool::lossy_text(stdout@),
                        tool::lossy_text(stderr@),
                    );
                    cards.last().raw == Some(output) && cards.last().title
                        == messages.net_raw_output@
                },
                ToolRun::Missing => cards.len() == 1 && cards[0].title
                    == messages.net_tool_missing_binary@,
                ToolRun::Failed(reason) => cards.len() == 1 && cards[0].title == program
                    && cards[0].lines == seq![reason@],
                ToolRun::TimedOut => cards.len() == 1 && cards[0].title == program
                    && cards[0].status == Some(CardStatus::Warn),
            }
        }),
{
}

/// Times print one for one: a time below the resolution as zero with one
/// decimal, and any other as the printer gives its number with one decimal.
pub proof fn law_times_print_one_for_one<T: Fn(&Number, u8) -> String>(
    hops: Seq<Hop>,
    print_number: T,
    times: Seq<Vec<String>>,
    i: int,
    j: int,
)
    requires
        are_printed(hops, print_number, times),
        0 <= i < hops.len(),
        0 <= j < hops[i].times_ms@.len(),
    ensures
        times.len() == hops.len(),
        times[i]@.len() == hops[i].times_ms@.len(),
        match hops[i].times_ms@[j] {
            HopTime::BelowResolution => times[i]@[j]@ == seq!['0', '.', '0'],
            HopTime::Millis(n) => call_ensures(print_number, (&n, 1u8), times[i]@[j]),
        },
{
    reveal_strlit("0.0");
    assert("0.0"@ =~= seq!['0', '.', '0']);
    assert(is_printed_time(hops[i].times_ms@[j], print_number, times[i]@[j]));
    assert(times[i]@.len() == hops[i].times_ms@.len());
}

/// Where the output holds hops, the path card stands first: it has one line
/// for each of them, and the verdict on them.
pub proof fn law_path_card_stands_first<T: Fn(&Number, u8) -> String>(
    cards: Seq<CardModel>,
    host: Seq<char>,
    output: Seq<char>,
    print_number: T,
    messages: Messages,
)
    requires
        are_cards(cards, host, output, print_number, messages),
        hops_of(output).len() > 0,
    ensures
        cards.len() == 2,
        cards[0].lines.len() == hops_of(output).len(),
        cards[0].status == Some(verdict_of(hops_of(output))),
        host.is_prefix_of(cards[0].title),
{
    assert(host.is_prefix_of(cards[0].title)) by {
        assert(cards[0].title.take(host.len() as int) == host);
    }
}

} // verus!
