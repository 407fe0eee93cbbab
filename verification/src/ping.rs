//! What `ping` reported.
//!
//! iputils, BSD and Windows phrase their statistics differently, and Windows
//! translates them. Only what the platforms have in common is read: the
//! English words of the first two, and the shape of the third.

use crate::card;
use crate::card::{CardModel, CardStatus, Messages, NetToolCard};
use crate::number;
use crate::number::Number;
use crate::share;
use crate::text;
use crate::text::Class;
use crate::tool;
use crate::tool::{CommandModel, ToolCommand, ToolRun};
use crate::value;
use crate::zero;
use vstd::prelude::*;

verus! {

/// Echo requests per run: four is what every platform's default flag count
/// means to a person reading the output.
pub const COUNT: u8 = 4;

/// Wall-clock ceiling of a run, in seconds. The run's own budget is bounded
/// by the number of requests.
pub const PING_BUDGET_SECS: u64 = 25;

/// Round-trip times as texts: minimum, average and maximum.
pub type Times = (Seq<char>, Seq<char>, Seq<char>);

/// The share of packets lost, as counters and texts.
pub enum LossModel {
    Zero,
    Printed(Seq<char>),
    Share { lost: u32, transmitted: u32 },
    Counted { transmitted: Seq<char>, received: Seq<char> },
}

/// A summary as counters and texts.
pub struct PingModel {
    pub transmitted: nat,
    pub received: nat,
    pub loss_pct: LossModel,
    pub rtt_ms: Option<Times>,
}

/// The share of packets lost, in percent.
#[derive(Clone, Debug, PartialEq, Eq)]
pub enum Loss {
    /// The tool printed none, and no packets were transmitted: nothing was
    /// lost, rather than a share of nothing.
    Zero,
    /// What the tool printed.
    Printed(Number),
    /// The tool printed none: what is missing of the packets transmitted.
    Share { lost: u32, transmitted: u32 },
    /// The tool printed none, and the numbers that it printed are not both
    /// counters of which one is missing from the other: what is left of the
    /// first without the second, divided by the first.
    Counted { transmitted: Number, received: Number },
}

impl View for Loss {
    type V = LossModel;

    open spec fn view(&self) -> LossModel {
        match self {
            Loss::Zero => LossModel::Zero,
            Loss::Printed(n) => LossModel::Printed(n@),
            Loss::Share { lost, transmitted } => LossModel::Share {
                lost: *lost,
                transmitted: *transmitted,
            },
            Loss::Counted { transmitted, received } => LossModel::Counted {
                transmitted: transmitted@,
                received: received@,
            },
        }
    }
}

/// What a ping run reported.
#[derive(Clone, Debug, PartialEq, Eq)]
pub struct PingSummary {
    pub transmitted: u32,
    pub received: u32,
    pub loss_pct: Loss,
    /// min / avg / max, when the tool printed a statistics line.
    pub rtt_ms: Option<(Number, Number, Number)>,
}

/// The texts of three times.
pub open spec fn times_of(t: (Number, Number, Number)) -> Times {
    (t.0@, t.1@, t.2@)
}

impl View for PingSummary {
    type V = PingModel;

    open spec fn view(&self) -> PingModel {
        PingModel {
            transmitted: self.transmitted as nat,
            received: self.received as nat,
            loss_pct: self.loss_pct@,
            rtt_ms: times_model(self.rtt_ms),
        }
    }
}

/// The text, if it denotes a number.
pub open spec fn as_number(s: Seq<char>) -> Option<Seq<char>> {
    if number::is_number(s) {
        Some(s)
    } else {
        None
    }
}

/// The last word before the first occurrence of the marker. There is none
/// before a marker that does not occur.
pub open spec fn word_before(line: Seq<char>, marker: Seq<char>) -> Option<Seq<char>> {
    let words = text::words(text::before(line, marker));
    if text::contains(line, marker) && words.len() > 0 {
        Some(words.last())
    } else {
        None
    }
}

/// The number right before the marker.
pub open spec fn number_ahead(line: Seq<char>, marker: Seq<char>) -> Option<Seq<char>> {
    match word_before(line, marker) {
        Some(word) => as_number(word),
        None => None,
    }
}

/// The number right before the marker, without percent signs behind it.
pub open spec fn percent_ahead(line: Seq<char>, marker: Seq<char>) -> Option<Seq<char>> {
    match word_before(line, marker) {
        Some(word) => as_number(text::trim_end(word, Class::Percent)),
        None => None,
    }
}

/// The first of two values that is there.
pub open spec fn first_of<T>(a: Option<T>, b: Option<T>) -> Option<T> {
    if a is Some {
        a
    } else {
        b
    }
}

/// The share of packets lost where the tool printed none: zero where nothing
/// was transmitted, and else what is missing of the packets transmitted.
pub open spec fn loss_between(transmitted: Seq<char>, received: Seq<char>) -> LossModel {
    let counted = LossModel::Counted { transmitted, received };
    if zero::is_zero(transmitted) {
        LossModel::Zero
    } else {
        match (share::counter_of(transmitted), share::counter_of(received)) {
            (Some(sent), Some(back)) => if 0 < sent && back <= sent {
                LossModel::Share { lost: (sent - back) as u32, transmitted: sent }
            } else {
                counted
            },
            _ => counted,
        }
    }
}

/// What a line of iputils or BSD statistics says.
pub open spec fn posix_stats(line: Seq<char>) -> Option<PingModel> {
    let transmitted = first_of(
        number_ahead(line, "packets transmitted"@),
        number_ahead(line, "transmitted"@),
    );
    let received = first_of(
        number_ahead(line, "packets received"@),
        number_ahead(line, "received"@),
    );
    if text::contains(line, "transmitted"@) && transmitted is Some && received is Some {
        Some(
            PingModel {
                transmitted: value::count_of(transmitted->0),
                received: value::count_of(received->0),
                loss_pct: match percent_ahead(line, "packet loss"@) {
                    Some(loss) => LossModel::Printed(loss),
                    None => loss_between(transmitted->0, received->0),
                },
                rtt_ms: None,
            },
        )
    } else {
        None
    }
}

/// The number that a piece begins with, behind white space: its longest
/// prefix made of the class, if that denotes a number.
pub open spec fn reading(piece: Seq<char>, class: Class) -> Option<Seq<char>> {
    as_number(text::take_while(text::trim_start(piece, Class::Space), class))
}

/// The numbers that the pieces begin with, in order. A piece that begins
/// with none is passed over.
pub open spec fn readings(pieces: Seq<Seq<char>>, class: Class) -> Seq<Seq<char>>
    decreases pieces.len(),
{
    if pieces.len() == 0 {
        Seq::empty()
    } else {
        let earlier = readings(pieces.drop_last(), class);
        match reading(pieces.last(), class) {
            Some(n) => earlier.push(n),
            None => earlier,
        }
    }
}

/// The numbers assigned on a line: those right behind an equals sign.
pub open spec fn assigned(line: Seq<char>, class: Class) -> Seq<Seq<char>> {
    readings(text::split(line, "="@).skip(1), class)
}

/// The number between the first opening bracket and the percent sign behind
/// it.
pub open spec fn percent_in_brackets(line: Seq<char>) -> Option<Seq<char>> {
    let parts = text::split(line, "("@);
    if parts.len() > 1 && text::contains(parts[1], "%"@) {
        as_number(text::trim(text::before(parts[1], "%"@), Class::Space))
    } else {
        None
    }
}

/// What a line of Windows counters says, in any language: the numbers by
/// their position, the share by its brackets.
pub open spec fn windows_stats(line: Seq<char>) -> Option<PingModel> {
    let numbers = assigned(line, Class::Digit);
    let loss = percent_in_brackets(line);
    if text::contains(line, "="@) && text::contains(line, "%"@) && numbers.len() >= 3
        && loss is Some {
        Some(
            PingModel {
                transmitted: value::count_of(numbers[0]),
                received: value::count_of(numbers[1]),
                loss_pct: LossModel::Printed(loss->0),
                rtt_ms: None,
            },
        )
    } else {
        None
    }
}

/// The parts of an iputils or BSD timing line: what stands behind its last
/// equals sign, without the unit, cut at the slashes.
pub open spec fn timing_parts(values: Seq<char>) -> Seq<Seq<char>> {
    let bare = text::trim(
        text::trim_end_pattern(text::trim(values, Class::Space), "ms"@),
        Class::Space,
    );
    text::split(bare, "/"@)
}

/// The times of an iputils or BSD timing line.
pub open spec fn posix_rtt(line: Seq<char>) -> Option<Times> {
    let tail = text::after_last(line, '=');
    let parts = timing_parts(tail->0);
    if text::contains(line, "min/avg/max"@) && tail is Some && parts.len() >= 3 {
        let min = text::trim(parts[0], Class::Space);
        let avg = text::trim(parts[1], Class::Space);
        let max = text::trim(parts[2], Class::Space);
        if number::is_number(min) && number::is_number(avg) && number::is_number(max) {
            Some((min, avg, max))
        } else {
            None
        }
    } else {
        None
    }
}

/// Whether `ms` stands right behind the number that a piece begins with,
/// white space aside.
pub open spec fn carries_unit(piece: Seq<char>) -> bool {
    let behind = text::trim_start(text::trim_start(piece, Class::Space), Class::DigitOrDot);
    text::occurs_at(text::trim_start(behind, Class::Space), "ms"@, 0)
}

/// Whether every piece that begins with a number carries the unit behind it.
pub open spec fn all_carry_unit(pieces: Seq<Seq<char>>) -> bool {
    forall|i: int|
        0 <= i < pieces.len() && reading(#[trigger] pieces[i], Class::DigitOrDot) is Some
            ==> carries_unit(pieces[i])
}

/// The times of a Windows timing line, which prints the minimum, the maximum
/// and the average in this order, each with its unit.
pub open spec fn windows_rtt_line(line: Seq<char>) -> Option<Times> {
    let values = assigned(line, Class::DigitOrDot);
    if text::count(line, "ms"@) >= 3 && values.len() >= 3 && all_carry_unit(
        text::split(line, "="@).skip(1),
    ) {
        Some((values[0], values[2], values[1]))
    } else {
        None
    }
}

/// The times of the first Windows timing line.
pub open spec fn windows_rtt(lines: Seq<Seq<char>>) -> Option<Times>
    decreases lines.len(),
{
    if lines.len() == 0 {
        None
    } else {
        first_of(
            windows_rtt_line(text::trim(lines[0], Class::Space)),
            windows_rtt(lines.skip(1)),
        )
    }
}

/// The summary with other times.
pub open spec fn with_rtt(summary: PingModel, rtt: Times) -> PingModel {
    PingModel { rtt_ms: Some(rtt), ..summary }
}

/// What a line says to a summary.
pub struct LineModel {
    pub posix: Option<PingModel>,
    pub windows: Option<PingModel>,
    pub rtt_ms: Option<Times>,
}

/// What a trimmed line says.
pub open spec fn said_by(line: Seq<char>) -> LineModel {
    LineModel {
        posix: posix_stats(line),
        windows: windows_stats(line),
        rtt_ms: posix_rtt(line),
    }
}

/// What the lines say, each trimmed.
pub open spec fn all_said(lines: Seq<Seq<char>>) -> Seq<LineModel> {
    Seq::new(lines.len(), |i: int| said_by(text::trim(lines[i], Class::Space)))
}

/// What is known behind a line, from what was known before it: POSIX
/// counters always count, Windows counters only where nothing is known yet,
/// and times belong to the counters before them.
pub open spec fn after_line(known: Option<PingModel>, said: LineModel) -> Option<PingModel> {
    let counted = first_of(said.posix, first_of(known, said.windows));
    match (counted, said.rtt_ms) {
        (Some(summary), Some(rtt)) => Some(with_rtt(summary, rtt)),
        _ => counted,
    }
}

/// What is known behind all of the lines.
pub open spec fn after_lines(said: Seq<LineModel>) -> Option<PingModel>
    decreases said.len(),
{
    if said.len() == 0 {
        None
    } else {
        after_line(after_lines(said.drop_last()), said.last())
    }
}

/// The summary of a ping run: what its lines say, with the Windows times
/// where no other times were found.
pub open spec fn summary_of(output: Seq<char>) -> Option<PingModel> {
    summary_of_lines(text::lines(output))
}

/// The summary that lines hold.
pub open spec fn summary_of_lines(lines: Seq<Seq<char>>) -> Option<PingModel> {
    filled(after_lines(all_said(lines)), windows_rtt(lines))
}

/// What is known, with the given times where it has none.
pub open spec fn filled(known: Option<PingModel>, rtt: Option<Times>) -> Option<PingModel> {
    match known {
        Some(summary) => match (summary.rtt_ms, rtt) {
            (None, Some(rtt)) => Some(with_rtt(summary, rtt)),
            _ => Some(summary),
        },
        None => None,
    }
}

/// The last word before the marker.
fn last_word_before<'a>(line: &'a [char], marker: &str) -> (res: Option<&'a [char]>)
    ensures
        res is Some <==> word_before(line@, marker@) is Some,
        res matches Some(w) ==> word_before(line@, marker@) == Some(w@),
{
    if marker.is_empty() {
        assert(marker@ == Seq::<char>::empty());
        assert(line@.subrange(0, 0) == Seq::<char>::empty());
        assert(text::occurs_at(line@, marker@, 0));
        assert(text::before(line@, marker@).len() == 0);
        return None;
    }
    if !text::has_pattern(line, marker) {
        return None;
    }
    let words: Vec<&'a [char]> = text::words_of(text::head_before(line, marker));
    let ghost model = text::texts_of(words@);
    let n: usize = words.len();
    if n > 0 {
        assert(model.last() == words@[n - 1]@);
        Some(words[n - 1])
    } else {
        None
    }
}

/// The number immediately before `marker` on the line.
pub fn number_before(line: &[char], marker: &str) -> (res: Option<Number>)
    ensures
        res is Some <==> number_ahead(line@, marker@) is Some,
        res matches Some(n) ==> number_ahead(line@, marker@) == Some(n@),
{
    match last_word_before(line, marker) {
        Some(word) => Number::read(word),
        None => None,
    }
}

/// The percentage immediately before `marker`, tolerating both `0%` and
/// `0.0%`.
pub fn percent_before(line: &[char], marker: &str) -> (res: Option<Number>)
    ensures
        res is Some <==> percent_ahead(line@, marker@) is Some,
        res matches Some(n) ==> percent_ahead(line@, marker@) == Some(n@),
{
    match last_word_before(line, marker) {
        Some(word) => Number::read(text::trimmed_end(word, Class::Percent)),
        None => None,
    }
}

/// An optional summary as counters and texts.
pub open spec fn model_of(summary: Option<PingSummary>) -> Option<PingModel> {
    match summary {
        Some(s) => Some(s@),
        None => None,
    }
}

/// Optional times as texts.
pub open spec fn times_model(times: Option<(Number, Number, Number)>) -> Option<Times> {
    match times {
        Some(t) => Some(times_of(t)),
        None => None,
    }
}

/// The share of packets lost where the tool printed none.
fn count_loss(transmitted: Number, received: Number) -> (res: Loss)
    ensures
        res@ == loss_between(transmitted@, received@),
{
    if transmitted.is_zero() {
        return Loss::Zero;
    }
    let sent = share::read_counter(&text::chars_of(transmitted.as_str()));
    let back = share::read_counter(&text::chars_of(received.as_str()));
    match (sent, back) {
        (Some(sent), Some(back)) => {
            if 0 < sent && back <= sent {
                return Loss::Share { lost: sent - back, transmitted: sent };
            }
        },
        _ => {},
    }
    Loss::Counted { transmitted, received }
}

/// `4 packets transmitted, 4 received, 0% packet loss, time 3005ms` and its
/// BSD spelling `4 packets transmitted, 4 packets received, 0.0% packet loss`.
pub fn parse_posix_stats(line: &[char]) -> (res: Option<PingSummary>)
    ensures
        model_of(res) == posix_stats(line@),
{
    proof {
        reveal_strlit("transmitted");
        reveal_strlit("packets transmitted");
        reveal_strlit("received");
        reveal_strlit("packets received");
        reveal_strlit("packet loss");
    }
    if !text::has_pattern(line, "transmitted") {
        return None;
    }
    let transmitted = match number_before(line, "packets transmitted") {
        Some(n) => n,
        None => match number_before(line, "transmitted") {
            Some(n) => n,
            None => {
                return None;
            },
        },
    };
    let received = match number_before(line, "packets received") {
        Some(n) => n,
        None => match number_before(line, "received") {
            Some(n) => n,
            None => {
                return None;
            },
        },
    };
    let sent: u32 = transmitted.count();
    let back: u32 = received.count();
    let loss_pct = match percent_before(line, "packet loss") {
        Some(loss) => Loss::Printed(loss),
        None => count_loss(transmitted, received),
    };
    Some(PingSummary { transmitted: sent, received: back, loss_pct, rtt_ms: None })
}

/// The numbers that the pieces from `from` on begin with.
fn read_numbers(pieces: &Vec<&[char]>, from: usize, class: Class) -> (res: Vec<Number>)
    requires
        from <= pieces@.len(),
    ensures
        res@.len() == readings(text::texts_of(pieces@).skip(from as int), class).len(),
        forall|i: int|
            0 <= i < res@.len() ==> #[trigger] res@[i]@ == readings(
                text::texts_of(pieces@).skip(from as int),
                class,
            )[i],
{
    let ghost all = text::texts_of(pieces@).skip(from as int);
    let mut res: Vec<Number> = Vec::new();
    let mut i: usize = from;
    while i < pieces.len()
        invariant
            from <= i <= pieces@.len(),
            all == text::texts_of(pieces@).skip(from as int),
            res@.len() == readings(all.take(i - from), class).len(),
            forall|j: int|
                0 <= j < res@.len() ==> #[trigger] res@[j]@ == readings(
                    all.take(i - from),
                    class,
                )[j],
        decreases pieces@.len() - i,
    {
        let piece = pieces[i];
        assert(all.take(i + 1 - from).drop_last() == all.take(i - from));
        assert(all.take(i + 1 - from).last() == piece@);
        match Number::read(text::prefix_of(text::trimmed_start(piece, Class::Space), class)) {
            Some(n) => {
                res.push(n);
            },
            None => {},
        }
        i = i + 1;
    }
    assert(all.take(all.len() as int) == all);
    res
}

/// The numbers assigned on a line.
fn read_assigned(line: &[char], class: Class) -> (res: Vec<Number>)
    ensures
        res@.len() == assigned(line@, class).len(),
        forall|i: int| 0 <= i < res@.len() ==> #[trigger] res@[i]@ == assigned(line@, class)[i],
{
    proof {
        reveal_strlit("=");
    }
    let pieces = text::pieces(line, "=");
    assert(pieces@.len() == text::texts_of(pieces@).len());
    read_numbers(&pieces, 1, class)
}

/// Windows: `Packets: Sent = 4, Received = 4, Lost = 0 (0% loss),`. The words
/// are translated on a localized install, the `= n` shape and the `(n% ...)`
/// are not, so the three numbers are read positionally from the `=`
/// assignments and the percentage from the parentheses.
pub fn parse_windows_stats(line: &[char]) -> (res: Option<PingSummary>)
    ensures
        model_of(res) == windows_stats(line@),
{
    proof {
        reveal_strlit("=");
        reveal_strlit("%");
        reveal_strlit("(");
    }
    if !text::has_pattern(line, "=") || !text::has_pattern(line, "%") {
        return None;
    }
    let numbers = read_assigned(line, Class::Digit);
    if numbers.len() < 3 {
        return None;
    }
    let parts = text::pieces(line, "(");
    let ghost model = text::texts_of(parts@);
    if parts.len() < 2 {
        assert(model.len() < 2);
        return None;
    }
    assert(model[1] == parts@[1]@);
    if !text::has_pattern(parts[1], "%") {
        return None;
    }
    let share = text::trimmed(text::head_before(parts[1], "%"), Class::Space);
    match Number::read(share) {
        Some(loss) => Some(
            PingSummary {
                transmitted: numbers[0].count(),
                received: numbers[1].count(),
                loss_pct: Loss::Printed(loss),
                rtt_ms: None,
            },
        ),
        None => None,
    }
}

/// `rtt min/avg/max/mdev = 11.155/11.402/11.717/0.205 ms` (iputils) and
/// `round-trip min/avg/max/stddev = ...` (BSD).
pub fn parse_rtt_line(line: &[char]) -> (res: Option<(Number, Number, Number)>)
    ensures
        times_model(res) == posix_rtt(line@),
{
    proof {
        reveal_strlit("min/avg/max");
        reveal_strlit("ms");
        reveal_strlit("/");
    }
    if !text::has_pattern(line, "min/avg/max") {
        return None;
    }
    let values = match text::tail_after(line, '=') {
        Some(values) => values,
        None => {
            return None;
        },
    };
    let bare = text::trimmed(
        text::trimmed_end_pattern(text::trimmed(values, Class::Space), "ms"),
        Class::Space,
    );
    let parts = text::pieces(bare, "/");
    let ghost model = text::texts_of(parts@);
    assert(model == timing_parts(values@));
    if parts.len() < 3 {
        assert(model.len() < 3);
        return None;
    }
    assert(model[0] == parts@[0]@ && model[1] == parts@[1]@ && model[2] == parts@[2]@);
    let min = Number::read(text::trimmed(parts[0], Class::Space));
    let avg = Number::read(text::trimmed(parts[1], Class::Space));
    let max = Number::read(text::trimmed(parts[2], Class::Space));
    match (min, avg, max) {
        (Some(min), Some(avg), Some(max)) => Some((min, avg, max)),
        _ => None,
    }
}

/// Whether `ms` stands right behind the number that the piece begins with.
fn unit_follows(piece: &[char]) -> (res: bool)
    ensures
        res == carries_unit(piece@),
{
    let unit: Vec<char> = text::chars_of("ms");
    let behind = text::trimmed_start(
        text::trimmed_start(piece, Class::Space),
        Class::DigitOrDot,
    );
    text::occurs(text::trimmed_start(behind, Class::Space), &unit, 0)
}

/// Whether every number assigned on the line carries `ms`.
fn units_follow(line: &[char]) -> (res: bool)
    ensures
        res == all_carry_unit(text::split(line@, "="@).skip(1)),
{
    proof {
        reveal_strlit("=");
    }
    let pieces = text::pieces(line, "=");
    let ghost all = text::split(line@, "="@).skip(1);
    let mut i: usize = 1;
    assert(text::texts_of(pieces@).len() == pieces@.len());
    while i < pieces.len()
        invariant
            1 <= i,
            all == text::split(line@, "="@).skip(1),
            text::texts_of(pieces@).skip(1) == all,
            forall|j: int|
                0 <= j < i - 1 && j < all.len() && reading(
                    #[trigger] all[j],
                    Class::DigitOrDot,
                ) is Some ==> carries_unit(all[j]),
        decreases pieces@.len() - i,
    {
        let piece = pieces[i];
        assert(all[i - 1] == piece@);
        let bare = text::trimmed_start(piece, Class::Space);
        let number = Number::read(text::prefix_of(bare, Class::DigitOrDot));
        if number.is_some() && !unit_follows(piece) {
            return false;
        }
        i = i + 1;
    }
    true
}

/// The times of one Windows timing line.
fn parse_windows_rtt_line(line: &[char]) -> (res: Option<(Number, Number, Number)>)
    ensures
        times_model(res) == windows_rtt_line(line@),
{
    proof {
        reveal_strlit("ms");
    }
    if text::occurrences(line, "ms") < 3 {
        return None;
    }
    let values = read_assigned(line, Class::DigitOrDot);
    if values.len() >= 3 && units_follow(line) {
        // Windows prints minimum, maximum, average, in that order.
        Some((values[0].clone(), values[2].clone(), values[1].clone()))
    } else {
        None
    }
}

/// Windows: `Minimum = 11ms, Maximum = 12ms, Average = 11ms`, in whatever
/// language the install speaks. Read positionally like the counters, and
/// only from a line whose numbers all carry `ms`, so the counters line above
/// cannot be mistaken for it.
pub fn parse_windows_rtt(lines: &Vec<&[char]>) -> (res: Option<(Number, Number, Number)>)
    ensures
        times_model(res) == windows_rtt(text::texts_of(lines@)),
{
    let ghost all = text::texts_of(lines@);
    let mut i: usize = 0;
    assert(all.skip(0) == all);
    while i < lines.len()
        invariant
            i <= lines@.len(),
            all == text::texts_of(lines@),
            windows_rtt(all.skip(i as int)) == windows_rtt(all),
        decreases lines@.len() - i,
    {
        assert(all.skip(i as int)[0] == lines@[i as int]@);
        assert(all.skip(i as int).skip(1) == all.skip(i + 1));
        let rtt = parse_windows_rtt_line(text::trimmed(lines[i], Class::Space));
        if rtt.is_some() {
            return rtt;
        }
        i = i + 1;
    }
    None
}

/// Reads one trimmed line, on top of what is known before it.
fn read_line(known: Option<PingSummary>, line: &[char]) -> (res: Option<PingSummary>)
    ensures
        model_of(res) == after_line(model_of(known), said_by(line@)),
{
    let summary = match parse_posix_stats(line) {
        Some(s) => Some(s),
        None => match known {
            Some(s) => Some(s),
            None => parse_windows_stats(line),
        },
    };
    let rtt = parse_rtt_line(line);
    match summary {
        Some(s) => {
            if rtt.is_some() {
                Some(PingSummary { rtt_ms: rtt, ..s })
            } else {
                Some(s)
            }
        },
        None => None,
    }
}

/// Whether a list holds what the lines say.
#[verifier::opaque]
spec fn holds_said(said: Seq<LineModel>, lines: Seq<Seq<char>>) -> bool {
    said == all_said(lines)
}

proof fn lemma_all_said(lines: Seq<Seq<char>>) -> (said: Seq<LineModel>)
    ensures
        holds_said(said, lines),
        said.len() == lines.len(),
{
    reveal(holds_said);
    all_said(lines)
}

proof fn lemma_said_is_all(said: Seq<LineModel>, lines: Seq<Seq<char>>)
    requires
        holds_said(said, lines),
    ensures
        after_lines(said) == after_lines(all_said(lines)),
{
    reveal(holds_said);
}

/// Reads the line at an index, on top of what is known before it.
fn read_next(
    known: Option<PingSummary>,
    lines: &Vec<&[char]>,
    i: usize,
    Ghost(said): Ghost<Seq<LineModel>>,
) -> (res: Option<PingSummary>)
    requires
        i < lines@.len(),
        holds_said(said, text::texts_of(lines@)),
    ensures
        model_of(res) == after_line(model_of(known), said[i as int]),
{
    proof {
        reveal(holds_said);
        assert(text::texts_of(lines@)[i as int] == lines@[i as int]@);
    }
    read_line(known, text::trimmed(lines[i], Class::Space))
}

/// Reads all of the lines.
fn read_lines(lines: &Vec<&[char]>) -> (res: Option<PingSummary>)
    ensures
        model_of(res) == after_lines(all_said(text::texts_of(lines@))),
{
    let ghost said = lemma_all_said(text::texts_of(lines@));
    let mut summary: Option<PingSummary> = None;
    let mut i: usize = 0;
    while i < lines.len()
        invariant
            i <= lines@.len(),
            said.len() == lines@.len(),
            holds_said(said, text::texts_of(lines@)),
            model_of(summary) == after_lines(said.take(i as int)),
        decreases lines@.len() - i,
    {
        assert(said.take(i + 1).drop_last() == said.take(i as int));
        summary = read_next(summary, lines, i, Ghost(said));
        i = i + 1;
    }
    assert(said.take(said.len() as int) == said);
    proof {
        lemma_said_is_all(said, text::texts_of(lines@));
    }
    summary
}

/// Puts the times into a summary that has none.
fn fill_times(known: PingSummary, rtt: Option<(Number, Number, Number)>) -> (res: PingSummary)
    ensures
        filled(Some(known@), times_model(rtt)) == Some(res@),
{
    if known.rtt_ms.is_none() && rtt.is_some() {
        PingSummary { rtt_ms: rtt, ..known }
    } else {
        known
    }
}

/// Read the statistics block. Handles iputils ("4 received"), BSD and macOS
/// ("4 packets received") and Windows (whose counters are localized, so only
/// the percentage and the numeric fields are read). Returns `None` when
/// nothing recognizable is there, which is what keeps the raw card from
/// being contradicted by a made-up summary.
#[verifier::spinoff_prover]
pub fn parse_ping(output: &str) -> (res: Option<PingSummary>)
    ensures
        model_of(res) == summary_of(output@),
{
    let chars: Vec<char> = text::chars_of(output);
    let lines = text::lines_of(&chars);
    match read_lines(&lines) {
        // Windows prints its timing block after the counters, on its own
        // localized line, so it is read in a second pass over the same text.
        Some(summary) => Some(fill_times(summary, parse_windows_rtt(&lines))),
        None => None,
    }
}

/// The command that pings a host.
pub open spec fn command_model(host: Seq<char>, windows: bool) -> CommandModel {
    CommandModel {
        program: "ping"@,
        args: seq![
            if windows {
                "-n"@
            } else {
                "-c"@
            },
            number::decimal(COUNT as nat),
            host,
        ],
        budget_secs: PING_BUDGET_SECS,
    }
}

/// The command that pings a host. The flag for the number of requests is the
/// one thing that the platforms spell differently.
pub fn ping_command(host: &str, windows: bool) -> (res: ToolCommand)
    ensures
        res@ == command_model(host@, windows),
{
    let mut args: Vec<String> = Vec::new();
    args.push(
        if windows {
            "-n".to_owned()
        } else {
            "-c".to_owned()
        },
    );
    args.push(number::print_u64(COUNT as u64));
    args.push(host.to_owned());
    let res = ToolCommand {
        program: "ping".to_owned(),
        args,
        budget_secs: PING_BUDGET_SECS,
    };
    assert(res@.args == command_model(host@, windows).args);
    res
}

/// The floating-point numbers of a summary as they print.
#[derive(Clone, Debug, PartialEq, Eq)]
pub struct PingFigures {
    /// The share of packets lost, without decimals.
    pub loss: String,
    /// The round-trip times, with the decimals that suit them.
    pub rtt: Option<PrintedTimes>,
}

/// Three round-trip times as they print, in milliseconds.
#[derive(Clone, Debug, PartialEq, Eq)]
pub struct PrintedTimes {
    pub min: String,
    pub avg: String,
    pub max: String,
}

/// How many decimals suit round-trip times with the given maximum.
pub open spec fn decimals_for(max: Seq<char>) -> u8 {
    if value::below_ten(max) {
        3
    } else {
        1
    }
}

/// The line with the counters.
pub open spec fn counters_line(summary: PingModel, loss: Seq<char>, messages: Messages) -> Seq<char> {
    let received = text::replace_first(
        messages.net_ping_summary@,
        "{recv}"@,
        number::decimal(summary.received),
    );
    let sent = text::replace_first(received, "{sent}"@, number::decimal(summary.transmitted));
    text::replace_first(sent, "{loss}"@, loss)
}

/// The line with the round-trip times.
pub open spec fn rtt_line(times: PrintedTimes, messages: Messages) -> Seq<char> {
    messages.net_ping_rtt@ + ": "@ + times.min@ + " / "@ + times.avg@ + " / "@ + times.max@
        + " ms"@
}

/// The lines of the summary card.
pub open spec fn summary_lines(
    summary: PingModel,
    figures: PingFigures,
    messages: Messages,
) -> Seq<Seq<char>> {
    let counters = counters_line(summary, figures.loss@, messages);
    match figures.rtt {
        Some(times) => seq![counters, rtt_line(times, messages)],
        None => seq![counters],
    }
}

/// The verdict on a ping run: nothing came back, something is missing, or
/// everything came back.
pub open spec fn verdict_of(summary: PingModel) -> CardStatus {
    if summary.received == 0 {
        CardStatus::Bad
    } else if summary.received < summary.transmitted {
        CardStatus::Warn
    } else {
        CardStatus::Good
    }
}

/// The summary card.
pub open spec fn summary_model(
    host: Seq<char>,
    output: Seq<char>,
    summary: PingModel,
    figures: PingFigures,
    messages: Messages,
) -> CardModel {
    CardModel::new(host, summary_lines(summary, figures, messages)).status(
        verdict_of(summary),
    ).raw(output)
}

/// Whether a loss is one that a summary can hold: its texts are numbers, its
/// counters are exact, and it is counted only where something was sent.
pub open spec fn is_loss(loss: LossModel) -> bool {
    match loss {
        LossModel::Zero => true,
        LossModel::Printed(n) => number::is_number(n),
        LossModel::Share { lost, transmitted } => 0 < transmitted <= share::EXACT && lost
            <= transmitted,
        LossModel::Counted { transmitted, received } => number::is_number(transmitted)
            && number::is_number(received) && !zero::is_zero(transmitted),
    }
}

/// Whether the share of packets lost prints as the text, without decimals:
/// the library prints what is counted, and the printers what is not.
pub open spec fn is_printed_loss<
    L: Fn(&Number, &Number) -> String,
    T: Fn(&Number, u8) -> String,
>(loss: Loss, print_loss: L, print_number: T, printed: String) -> bool {
    match loss {
        Loss::Zero => printed@ == "0"@,
        Loss::Printed(share) => call_ensures(print_number, (&share, 0u8), printed),
        Loss::Share { lost, transmitted } => printed@ == number::decimal(
            share::whole_percent(lost as nat, transmitted as nat),
        ),
        Loss::Counted { transmitted, received } => call_ensures(
            print_loss,
            (&transmitted, &received),
            printed,
        ),
    }
}

/// Whether the printers can be called: the one for the share of packets lost
/// on a number of packets transmitted that is not zero, and the other on any
/// number.
pub open spec fn can_print<L: Fn(&Number, &Number) -> String, T: Fn(&Number, u8) -> String>(
    print_loss: L,
    print_number: T,
) -> bool {
    &&& forall|transmitted: Number, received: Number|
        !zero::is_zero(transmitted@) ==> #[trigger] call_requires(
            print_loss,
            (&transmitted, &received),
        )
    &&& forall|n: Number, decimals: u8| call_requires(print_number, (&n, decimals))
}

/// Whether the figures are what is printed of a summary. Times are printed
/// where there are times, all with the decimals that suit the maximum.
pub open spec fn are_printed<L: Fn(&Number, &Number) -> String, T: Fn(&Number, u8) -> String>(
    summary: PingSummary,
    print_loss: L,
    print_number: T,
    figures: PingFigures,
) -> bool {
    &&& is_printed_loss(summary.loss_pct, print_loss, print_number, figures.loss)
    &&& match (summary.rtt_ms, figures.rtt) {
        (Some((min, avg, max)), Some(times)) => {
            &&& call_ensures(print_number, (&min, decimals_for(max@)), times.min)
            &&& call_ensures(print_number, (&avg, decimals_for(max@)), times.avg)
            &&& call_ensures(print_number, (&max, decimals_for(max@)), times.max)
        },
        (None, None) => true,
        _ => false,
    }
}

/// Whether the cards are those of a ping run: the summary card where the
/// output holds a summary, and the tool's own output in any case.
pub open spec fn are_cards<L: Fn(&Number, &Number) -> String, T: Fn(&Number, u8) -> String>(
    cards: Seq<CardModel>,
    host: Seq<char>,
    output: Seq<char>,
    print_loss: L,
    print_number: T,
    messages: Messages,
) -> bool {
    let raw = card::raw_model(output, messages);
    match summary_of(output) {
        Some(model) => exists|summary: PingSummary, figures: PingFigures|
            summary@ == model && #[trigger] are_printed(summary, print_loss, print_number, figures)
                && cards == seq![summary_model(host, output, model, figures, messages), raw],
        None => cards == seq![raw],
    }
}

/// The verdict on a ping run.
pub fn ping_status(summary: &PingSummary) -> (res: CardStatus)
    ensures
        res == verdict_of(summary@),
{
    if summary.received == 0 {
        CardStatus::Bad
    } else if summary.received < summary.transmitted {
        CardStatus::Warn
    } else {
        CardStatus::Good
    }
}

/// Writes the line with the counters.
fn write_counters(summary: &PingSummary, loss: &str, messages: &Messages) -> (res: String)
    ensures
        res@ == counters_line(summary@, loss@, *messages),
{
    proof {
        reveal_strlit("{recv}");
        reveal_strlit("{sent}");
        reveal_strlit("{loss}");
    }
    let received = number::print_u64(summary.received as u64);
    let sent = number::print_u64(summary.transmitted as u64);
    let line = text::replaced(messages.net_ping_summary.as_str(), "{recv}", received.as_str());
    let line = text::replaced(line.as_str(), "{sent}", sent.as_str());
    text::replaced(line.as_str(), "{loss}", loss)
}

/// Writes the line with the round-trip times.
fn write_rtt(times: &PrintedTimes, messages: &Messages) -> (res: String)
    ensures
        res@ == rtt_line(*times, *messages),
{
    let mut line = messages.net_ping_rtt.clone();
    line.append(": ");
    line.append(times.min.as_str());
    line.append(" / ");
    line.append(times.avg.as_str());
    line.append(" / ");
    line.append(times.max.as_str());
    line.append(" ms");
    line
}

/// The summary card, with the floating-point numbers as they print.
pub fn summary_card(
    host: &str,
    output: &str,
    summary: &PingSummary,
    figures: &PingFigures,
    messages: &Messages,
) -> (res: NetToolCard)
    ensures
        res@ == summary_model(host@, output@, summary@, *figures, *messages),
{
    let mut lines: Vec<String> = Vec::new();
    lines.push(write_counters(summary, figures.loss.as_str(), messages));
    match &figures.rtt {
        Some(times) => {
            lines.push(write_rtt(times, messages));
        },
        None => {},
    }
    assert(text::strings(lines@) == summary_lines(summary@, *figures, *messages));
    let card = NetToolCard::new(host.to_owned(), lines).status(ping_status(summary));
    card.raw(output.to_owned())
}

/// Prints the floating-point numbers of a summary.
///
/// Sub-millisecond round trips are ordinary on loopback and on a fast LAN,
/// and one decimal renders all three of them as "0.0 ms", which reads as a
/// broken measurement rather than a fast one. The scale follows the numbers.
fn print_figures<L: Fn(&Number, &Number) -> String, T: Fn(&Number, u8) -> String>(
    summary: &PingSummary,
    print_loss: &L,
    print_number: &T,
) -> (res: PingFigures)
    requires
        can_print(*print_loss, *print_number),
        is_loss(summary.loss_pct@),
    ensures
        are_printed(*summary, *print_loss, *print_number, res),
{
    let loss = match &summary.loss_pct {
        Loss::Zero => "0".to_owned(),
        Loss::Printed(share) => print_number(share, 0),
        Loss::Share { lost, transmitted } => {
            number::print_u64(share::percent_lost(*lost, *transmitted))
        },
        Loss::Counted { transmitted, received } => print_loss(transmitted, received),
    };
    let rtt = match &summary.rtt_ms {
        Some((min, avg, max)) => {
            let decimals: u8 = if max.is_below_ten() {
                3
            } else {
                1
            };
            Some(
                PrintedTimes {
                    min: print_number(min, decimals),
                    avg: print_number(avg, decimals),
                    max: print_number(max, decimals),
                },
            )
        },
        None => None,
    };
    PingFigures { loss, rtt }
}

/// The cards of a ping run. The printers render floating-point numbers: the
/// share of packets lost between two numbers, without decimals, and a number
/// with the given number of decimals.
pub fn ping_cards<L: Fn(&Number, &Number) -> String, T: Fn(&Number, u8) -> String>(
    host: &str,
    output: &str,
    print_loss: L,
    print_number: T,
    messages: &Messages,
) -> (res: Vec<NetToolCard>)
    requires
        can_print(print_loss, print_number),
    ensures
        are_cards(card::cards_of(res@), host@, output@, print_loss, print_number, *messages),
{
    let raw = card::raw_card(output, messages);
    let mut cards: Vec<NetToolCard> = Vec::new();
    match parse_ping(output) {
        Some(summary) => {
            proof {
                law_summary_holds_numbers(output@);
            }
            let figures = print_figures(&summary, &print_loss, &print_number);
            cards.push(summary_card(host, output, &summary, &figures, messages));
            cards.push(raw);
            proof {
                let model = summary_model(host@, output@, summary@, figures, *messages);
                assert(card::cards_of(cards@) == seq![model, raw@]);
            }
        },
        None => {
            cards.push(raw);
            assert(card::cards_of(cards@) == seq![raw@]);
        },
    }
    cards
}

/// Whether the cards answer a ping: the cards of its output where it ran, and
/// the one card that says why not where it did not.
pub open spec fn are_answer<L: Fn(&Number, &Number) -> String, T: Fn(&Number, u8) -> String>(
    cards: Seq<CardModel>,
    host: Seq<char>,
    run: ToolRun,
    windows: bool,
    print_loss: L,
    print_number: T,
    messages: Messages,
) -> bool {
    match tool::result_of("ping"@, run, PING_BUDGET_SECS, windows, messages) {
        Ok(output) => are_cards(cards, host, output, print_loss, print_number, messages),
        Err(card) => cards == seq![card],
    }
}

/// Answers a ping from how the run of its command ended.
pub fn probe_ping<L: Fn(&Number, &Number) -> String, T: Fn(&Number, u8) -> String>(
    host: &str,
    run: ToolRun,
    windows: bool,
    print_loss: L,
    print_number: T,
    messages: &Messages,
) -> (res: Vec<NetToolCard>)
    requires
        can_print(print_loss, print_number),
    ensures
        are_answer(
            card::cards_of(res@),
            host@,
            run,
            windows,
            print_loss,
            print_number,
            *messages,
        ),
{
    match tool::tool_result("ping", run, PING_BUDGET_SECS, windows, messages) {
        Ok(output) => ping_cards(host, output.as_str(), print_loss, print_number, messages),
        Err(card) => {
            let mut cards: Vec<NetToolCard> = Vec::new();
            cards.push(card);
            assert(card::cards_of(cards@) == seq![card@]);
            cards
        },
    }
}

/// Whether a line holds counters that are read.
pub open spec fn is_statistics(line: Seq<char>) -> bool {
    posix_stats(text::trim(line, Class::Space)) is Some || windows_stats(
        text::trim(line, Class::Space),
    ) is Some
}

proof fn lemma_known_behind(said: Seq<LineModel>, i: int)
    requires
        0 <= i < said.len(),
        said[i].posix is Some || said[i].windows is Some,
    ensures
        after_lines(said) is Some,
    decreases said.len(),
{
    if i < said.len() - 1 {
        assert(said.drop_last()[i] == said[i]);
        lemma_known_behind(said.drop_last(), i);
    }
}

proof fn lemma_known_from(said: Seq<LineModel>) -> (i: int)
    requires
        after_lines(said) is Some,
    ensures
        0 <= i < said.len(),
        said[i].posix is Some || said[i].windows is Some,
    decreases said.len(),
{
    let shorter = said.drop_last();
    if after_lines(shorter) is Some {
        let i = lemma_known_from(shorter);
        assert(shorter[i] == said[i]);
        i
    } else {
        said.len() - 1
    }
}

/// There is a summary if and only if a line holds counters: none is made up,
/// and total loss is reported like any other.
pub proof fn law_summary_needs_statistics(output: Seq<char>)
    ensures
        summary_of(output) is Some <==> exists|i: int|
            0 <= i < text::lines(output).len() && is_statistics(#[trigger] text::lines(output)[i]),
{
    let lines = text::lines(output);
    if summary_of(output) is Some {
        let i = lemma_known_from(all_said(lines));
        assert(is_statistics(lines[i]));
    } else {
        assert forall|i: int| 0 <= i < lines.len() implies !is_statistics(
            #[trigger] lines[i],
        ) by {
            if is_statistics(lines[i]) {
                lemma_known_behind(all_said(lines), i);
            }
        }
    }
}

/// Whether a summary counts and loses what another one does; the times may
/// differ.
pub open spec fn same_counters(a: PingModel, b: PingModel) -> bool {
    a.transmitted == b.transmitted && a.received == b.received && a.loss_pct == b.loss_pct
}

proof fn lemma_last_posix_counts(said: Seq<LineModel>, i: int)
    requires
        0 <= i < said.len(),
        said[i].posix is Some,
        forall|j: int| i < j < said.len() ==> (#[trigger] said[j]).posix is None,
    ensures
        after_lines(said) matches Some(s) && same_counters(s, said[i].posix->0),
    decreases said.len(),
{
    if i < said.len() - 1 {
        let shorter = said.drop_last();
        assert(forall|j: int| 0 <= j < shorter.len() ==> #[trigger] shorter[j] == said[j]);
        lemma_last_posix_counts(shorter, i);
        assert(said[said.len() - 1].posix is None);
    }
}

/// Where iputils or BSD counters are printed, the last of them are the ones
/// reported.
pub proof fn law_last_posix_line_counts(output: Seq<char>, i: int)
    requires
        0 <= i < text::lines(output).len(),
        posix_stats(text::trim(text::lines(output)[i], Class::Space)) is Some,
        forall|j: int|
            i < j < text::lines(output).len() ==> posix_stats(
                text::trim(#[trigger] text::lines(output)[j], Class::Space),
            ) is None,
    ensures
        summary_of(output) matches Some(s) && same_counters(
            s,
            posix_stats(text::trim(text::lines(output)[i], Class::Space))->0,
        ),
{
    let lines = text::lines(output);
    assert forall|j: int| i < j < lines.len() implies (#[trigger] all_said(
        lines,
    )[j]).posix is None by {
        assert(posix_stats(text::trim(lines[j], Class::Space)) is None);
    }
    lemma_last_posix_counts(all_said(lines), i);
}

proof fn lemma_first_windows_counts(said: Seq<LineModel>, i: int)
    requires
        0 <= i < said.len(),
        said[i].windows is Some,
        forall|j: int| 0 <= j < i ==> (#[trigger] said[j]).windows is None,
        forall|j: int| 0 <= j < said.len() ==> (#[trigger] said[j]).posix is None,
    ensures
        after_lines(said) matches Some(s) && same_counters(s, said[i].windows->0),
    decreases said.len(),
{
    let shorter = said.drop_last();
    assert(forall|j: int| 0 <= j < shorter.len() ==> #[trigger] shorter[j] == said[j]);
    assert(said[said.len() - 1].posix is None);
    if i < said.len() - 1 {
        lemma_first_windows_counts(shorter, i);
    } else if after_lines(shorter) is Some {
        let j = lemma_known_from(shorter);
        assert(said[j].windows is None && said[j].posix is None);
    }
}

/// Where only Windows counters are printed, the first of them are the ones
/// reported.
pub proof fn law_first_windows_line_counts(output: Seq<char>, i: int)
    requires
        0 <= i < text::lines(output).len(),
        windows_stats(text::trim(text::lines(output)[i], Class::Space)) is Some,
        forall|j: int| 0 <= j < i ==> !is_statistics(#[trigger] text::lines(output)[j]),
        forall|j: int|
            0 <= j < text::lines(output).len() ==> posix_stats(
                text::trim(#[trigger] text::lines(output)[j], Class::Space),
            ) is None,
    ensures
        summary_of(output) matches Some(s) && same_counters(
            s,
            windows_stats(text::trim(text::lines(output)[i], Class::Space))->0,
        ),
{
    let lines = text::lines(output);
    let said = all_said(lines);
    assert forall|j: int| 0 <= j < lines.len() implies (#[trigger] said[j]).posix is None by {
        assert(posix_stats(text::trim(lines[j], Class::Space)) is None);
    }
    assert forall|j: int| 0 <= j < i implies (#[trigger] said[j]).windows is None by {
        assert(!is_statistics(lines[j]));
    }
    lemma_first_windows_counts(said, i);
}

/// Whether three times are numbers.
pub open spec fn are_numbers(t: Times) -> bool {
    number::is_number(t.0) && number::is_number(t.1) && number::is_number(t.2)
}

/// Whether every text of a summary is a number, and its loss one that can be
/// printed.
pub open spec fn holds_numbers(s: PingModel) -> bool {
    &&& is_loss(s.loss_pct)
    &&& s.rtt_ms matches Some(t) ==> are_numbers(t)
}

proof fn lemma_readings_are_numbers(pieces: Seq<Seq<char>>, class: Class)
    ensures
        forall|i: int|
            0 <= i < readings(pieces, class).len() ==> number::is_number(
                #[trigger] readings(pieces, class)[i],
            ),
    decreases pieces.len(),
{
    if pieces.len() > 0 {
        let earlier = readings(pieces.drop_last(), class);
        lemma_readings_are_numbers(pieces.drop_last(), class);
        assert forall|i: int| 0 <= i < readings(pieces, class).len() implies number::is_number(
            #[trigger] readings(pieces, class)[i],
        ) by {
            if i < earlier.len() {
                assert(number::is_number(earlier[i]));
            }
        }
    }
}

proof fn lemma_windows_rtt_is_numbers(lines: Seq<Seq<char>>)
    ensures
        windows_rtt(lines) matches Some(t) ==> are_numbers(t),
    decreases lines.len(),
{
    if lines.len() > 0 {
        lemma_windows_rtt_is_numbers(lines.skip(1));
        let line = text::trim(lines[0], Class::Space);
        lemma_readings_are_numbers(text::split(line, "="@).skip(1), Class::DigitOrDot);
    }
}

/// Whether every text that a line says to a summary is a number.
spec fn says_numbers(said: LineModel) -> bool {
    &&& said.posix matches Some(s) ==> holds_numbers(s)
    &&& said.windows matches Some(s) ==> holds_numbers(s)
    &&& said.rtt_ms matches Some(t) ==> are_numbers(t)
}

proof fn lemma_lines_hold_numbers(said: Seq<LineModel>)
    requires
        forall|i: int| 0 <= i < said.len() ==> says_numbers(#[trigger] said[i]),
    ensures
        after_lines(said) matches Some(s) ==> holds_numbers(s),
    decreases said.len(),
{
    if said.len() > 0 {
        let shorter = said.drop_last();
        assert(forall|j: int| 0 <= j < shorter.len() ==> #[trigger] shorter[j] == said[j]);
        lemma_lines_hold_numbers(shorter);
        assert(says_numbers(said[said.len() - 1]));
    }
}

proof fn lemma_line_says_numbers(line: Seq<char>)
    ensures
        says_numbers(said_by(line)),
{
}

/// Every text of a summary denotes a number, so that its value can be taken,
/// and a share is worked out only of packets that were sent.
pub proof fn law_summary_holds_numbers(output: Seq<char>)
    ensures
        summary_of(output) matches Some(s) ==> holds_numbers(s),
{
    let said = all_said(text::lines(output));
    assert forall|i: int| 0 <= i < said.len() implies says_numbers(#[trigger] said[i]) by {
        lemma_line_says_numbers(text::trim(text::lines(output)[i], Class::Space));
    }
    lemma_lines_hold_numbers(said);
    lemma_windows_rtt_is_numbers(text::lines(output));
}

/// The tool's own output is always shown, as the last card, and is what the
/// copy action of every card yields; without a summary it stands alone.
pub proof fn law_raw_output_is_always_shown<
    L: Fn(&Number, &Number) -> String,
    T: Fn(&Number, u8) -> String,
>(
    cards: Seq<CardModel>,
    host: Seq<char>,
    output: Seq<char>,
    print_loss: L,
    print_number: T,
    messages: Messages,
)
    requires
        are_cards(cards, host, output, print_loss, print_number, messages),
    ensures
        cards.len() > 0,
        cards.last() == card::raw_model(output, messages),
        forall|i: int| 0 <= i < cards.len() ==> (#[trigger] cards[i]).raw == Some(output),
        summary_of(output) is None <==> cards.len() == 1,
{
}

/// Whether a line changes neither the iputils or BSD counters nor the times.
pub open spec fn is_other_line(line: Seq<char>) -> bool {
    posix_stats(text::trim(line, Class::Space)) is None && posix_rtt(
        text::trim(line, Class::Space),
    ) is None
}

/// What is known stays as it is behind lines with neither POSIX counters nor
/// times.
proof fn lemma_kept_by_other_lines(said: Seq<LineModel>, n: int)
    requires
        0 <= n <= said.len(),
        after_lines(said.take(n)) is Some,
        forall|j: int|
            n <= j < said.len() ==> (#[trigger] said[j]).posix is None && said[j].rtt_ms is None,
    ensures
        after_lines(said) == after_lines(said.take(n)),
    decreases said.len(),
{
    if n == said.len() {
        assert(said.take(n) == said);
    } else {
        let shorter = said.drop_last();
        assert(shorter.take(n) == said.take(n));
        assert(forall|j: int| 0 <= j < shorter.len() ==> #[trigger] shorter[j] == said[j]);
        lemma_kept_by_other_lines(shorter, n);
        assert(said[said.len() - 1].posix is None);
    }
}

/// The last times are the ones known, where counters stand before them.
proof fn lemma_last_times(said: Seq<LineModel>, i: int, j: int)
    requires
        0 <= j <= i < said.len(),
        said[i].rtt_ms is Some,
        said[j].posix is Some || said[j].windows is Some,
        forall|k: int|
            i < k < said.len() ==> (#[trigger] said[k]).posix is None && said[k].rtt_ms is None,
    ensures
        after_lines(said) matches Some(s) && s.rtt_ms == said[i].rtt_ms,
{
    let upto = said.take(i + 1);
    assert(upto[j] == said[j]);
    lemma_known_behind(upto, j);
    assert(upto.last() == said[i]);
    lemma_kept_by_other_lines(said, i + 1);
}

/// The times reported are those of the last iputils or BSD timing line, where
/// counters stand before it and none behind it.
#[verifier::spinoff_prover]
pub proof fn law_last_timing_line_counts(output: Seq<char>, i: int)
    requires
        0 <= i < text::lines(output).len(),
        posix_rtt(text::trim(text::lines(output)[i], Class::Space)) is Some,
        exists|j: int| 0 <= j <= i && is_statistics(#[trigger] text::lines(output)[j]),
        forall|j: int|
            i < j < text::lines(output).len() ==> is_other_line(
                #[trigger] text::lines(output)[j],
            ),
    ensures
        summary_of(output) matches Some(s) && s.rtt_ms == posix_rtt(
            text::trim(text::lines(output)[i], Class::Space),
        ),
{
    let lines = text::lines(output);
    let said = all_said(lines);
    let j = choose|j: int| 0 <= j <= i && is_statistics(#[trigger] lines[j]);
    assert(said[j].posix is Some || said[j].windows is Some);
    assert forall|k: int| i < k < said.len() implies (#[trigger] said[k]).posix is None
        && said[k].rtt_ms is None by {
        assert(is_other_line(lines[k]));
    }
    lemma_last_times(said, i, j);
}

proof fn lemma_no_times(said: Seq<LineModel>)
    requires
        forall|i: int|
            0 <= i < said.len() ==> (#[trigger] said[i]).rtt_ms is None && (said[i].posix matches
                Some(s) ==> s.rtt_ms is None) && (said[i].windows matches Some(s) ==> s.rtt_ms
                is None),
    ensures
        after_lines(said) matches Some(s) ==> s.rtt_ms is None,
    decreases said.len(),
{
    if said.len() > 0 {
        let shorter = said.drop_last();
        assert(forall|k: int| 0 <= k < shorter.len() ==> #[trigger] shorter[k] == said[k]);
        lemma_no_times(shorter);
        assert(said[said.len() - 1].rtt_ms is None);
    }
}

/// Without an iputils or BSD timing line, the times reported are those of the
/// first Windows timing line, wherever it stands.
pub proof fn law_windows_times_fill_in(output: Seq<char>)
    requires
        summary_of(output) is Some,
        forall|i: int|
            0 <= i < text::lines(output).len() ==> posix_rtt(
                text::trim(#[trigger] text::lines(output)[i], Class::Space),
            ) is None,
    ensures
        summary_of(output)->0.rtt_ms == windows_rtt(text::lines(output)),
{
    let lines = text::lines(output);
    let said = all_said(lines);
    assert forall|i: int| 0 <= i < said.len() implies (#[trigger] said[i]).rtt_ms is None && (
    said[i].posix matches Some(s) ==> s.rtt_ms is None) && (said[i].windows matches Some(s)
        ==> s.rtt_ms is None) by {
        assert(posix_rtt(text::trim(lines[i], Class::Space)) is None);
    }
    lemma_no_times(said);
}

/// Whether a line holds nothing that a summary is made of.
spec fn adds_nothing(line: Seq<char>) -> bool {
    let bare = text::trim(line, Class::Space);
    &&& posix_stats(bare) is None
    &&& windows_stats(bare) is None
    &&& posix_rtt(bare) is None
    &&& windows_rtt_line(bare) is None
}

proof fn lemma_adds_nothing(line: Seq<char>)
    requires
        !text::contains(line, "="@),
        !text::contains(line, "transmitted"@),
    ensures
        adds_nothing(line),
{
    reveal_strlit("=");
    let bare = text::trim(line, Class::Space);
    text::lemma_trim_contains(line, Class::Space, "="@);
    text::lemma_trim_contains(line, Class::Space, "transmitted"@);
    assert("="@ == seq!['=']);
    text::lemma_contains_char(bare, '=');
    text::lemma_after_last_none(bare, '=');
    text::lemma_split_whole(bare, '=');
    assert(seq![bare].skip(1) == Seq::<Seq<char>>::empty());
}

proof fn lemma_nothing_known_more(
    before: Seq<LineModel>,
    said: LineModel,
    behind: Seq<LineModel>,
)
    requires
        said.posix is None && said.windows is None && said.rtt_ms is None,
    ensures
        after_lines(before.push(said) + behind) == after_lines(before + behind),
    decreases behind.len(),
{
    let with = before.push(said) + behind;
    let without = before + behind;
    if behind.len() == 0 {
        assert(with == before.push(said));
        assert(without == before);
        assert(with.drop_last() == before);
    } else {
        assert(with.drop_last() == before.push(said) + behind.drop_last());
        assert(without.drop_last() == before + behind.drop_last());
        assert(with.last() == without.last());
        lemma_nothing_known_more(before, said, behind.drop_last());
    }
}

/// What lines say, around a line.
#[verifier::spinoff_prover]
proof fn lemma_said_around(before: Seq<Seq<char>>, line: Seq<char>, behind: Seq<Seq<char>>)
    ensures
        all_said(before + behind) == all_said(before) + all_said(behind),
        all_said(before.push(line) + behind) == all_said(before).push(
            said_by(text::trim(line, Class::Space)),
        ) + all_said(behind),
{
}

/// A line that adds nothing changes nothing.
#[verifier::spinoff_prover]
proof fn lemma_same_summary(before: Seq<Seq<char>>, line: Seq<char>, behind: Seq<Seq<char>>)
    requires
        adds_nothing(line),
    ensures
        summary_of_lines(before.push(line) + behind) == summary_of_lines(before + behind),
{
    lemma_said_around(before, line, behind);
    lemma_nothing_known_more(
        all_said(before),
        said_by(text::trim(line, Class::Space)),
        all_said(behind),
    );
    lemma_no_times_more(before, line, behind);
}

proof fn lemma_no_times_more(before: Seq<Seq<char>>, line: Seq<char>, behind: Seq<Seq<char>>)
    requires
        adds_nothing(line),
    ensures
        windows_rtt(before.push(line) + behind) == windows_rtt(before + behind),
    decreases before.len(),
{
    let with = before.push(line) + behind;
    let without = before + behind;
    if before.len() == 0 {
        assert(with.skip(1) == without);
        assert(with[0] == line);
    } else {
        assert(with.skip(1) == before.skip(1).push(line) + behind);
        assert(without.skip(1) == before.skip(1) + behind);
        assert(with[0] == without[0]);
        lemma_no_times_more(before.skip(1), line, behind);
    }
}

/// A line without an equals sign and without the word `transmitted` never
/// changes the summary of the lines around it.
pub proof fn law_other_lines_change_nothing(
    before: Seq<Seq<char>>,
    line: Seq<char>,
    behind: Seq<Seq<char>>,
)
    requires
        !text::contains(line, "="@),
        !text::contains(line, "transmitted"@),
    ensures
        summary_of_lines(before.push(line) + behind) == summary_of_lines(before + behind),
{
    lemma_adds_nothing(line);
    lemma_same_summary(before, line, behind);
}

/// The same of a text: such a line can be put between two of its lines, at
/// its beginning or at its end without changing the summary.
pub proof fn law_other_text_changes_nothing(before: Seq<char>, line: Seq<char>, behind: Seq<char>)
    requires
        before.len() == 0 || before.last() == '\n',
        !line.contains('\n'),
        !text::contains(line, "="@),
        !text::contains(line, "transmitted"@),
    ensures
        summary_of(before + line + seq!['\n'] + behind) == summary_of(before + behind),
{
    let first = text::lines(before);
    let last = text::lines(behind);
    let bare = text::without_return(line);
    text::lemma_line_between(before, line, behind);
    lemma_adds_nothing(line);
    text::lemma_trim_without_return(line);
    lemma_same_summary(first, bare, last);
}

/// Where the tool printed no share, counters give it: nothing sent is no
/// loss, and else what is missing is held against what was sent.
pub proof fn law_loss_of_counters(transmitted: u32, received: u32)
    requires
        received <= transmitted <= share::EXACT,
    ensures
        loss_between(number::decimal(transmitted as nat), number::decimal(received as nat)) == (
        if transmitted == 0 {
            LossModel::Zero
        } else {
            LossModel::Share { lost: (transmitted - received) as u32, transmitted }
        }),
{
    number::law_printed_number_reads_back(transmitted);
    number::law_printed_number_reads_back(received);
    zero::law_counter_is_zero(transmitted as nat);
}

/// A Windows counters line with its labels in some language.
pub open spec fn counters_text(
    labels: (Seq<char>, Seq<char>, Seq<char>),
    counters: (Seq<char>, Seq<char>, Seq<char>),
    share: Seq<char>,
    tail: Seq<char>,
) -> Seq<char> {
    labels.0 + "= "@ + counters.0 + ", "@ + labels.1 + "= "@ + counters.1 + ", "@ + labels.2
        + "= "@ + counters.2 + " ("@ + share + "% "@ + tail
}

/// Whether a text can be a label: it holds neither an equals sign nor an
/// opening bracket.
pub open spec fn is_label(s: Seq<char>) -> bool {
    !s.contains('=') && !s.contains('(')
}

proof fn lemma_digits_are_a_number(n: Seq<char>)
    requires
        number::is_digits(n),
    ensures
        number::is_number(n),
        forall|c: char| !text::is_digit(c) ==> !n.contains(c),
{
    assert(text::is_digit(n[0]));
    text::lemma_leading_is(n, Class::Digit, n.len() as int);
    assert(n.skip(n.len() as int) == Seq::<char>::empty());
}

/// Digits behind a blank are the number that a piece begins with.
proof fn lemma_reading_of_digits(n: Seq<char>, rest: Seq<char>)
    requires
        number::is_digits(n),
        rest.len() > 0,
        !text::is_digit(rest[0]),
    ensures
        reading(seq![' '] + n + rest, Class::Digit) == Some(n),
{
    let piece = seq![' '] + n + rest;
    let bare = n + rest;
    assert(text::is_digit(n[0]));
    assert(piece[1] == n[0]);
    text::lemma_leading_is(piece, Class::Space, 1);
    assert(piece.skip(1) == bare);
    assert forall|i: int| 0 <= i < n.len() implies Class::Digit.has(#[trigger] bare[i]) by {
        assert(text::is_digit(n[i]));
    }
    assert(bare[n.len() as int] == rest[0]);
    text::lemma_leading_is(bare, Class::Digit, n.len() as int);
    assert(bare.take(n.len() as int) == n);
    lemma_digits_are_a_number(n);
}

proof fn lemma_readings_of_both(a: Seq<Seq<char>>, b: Seq<Seq<char>>, class: Class)
    ensures
        readings(a + b, class) == readings(a, class) + readings(b, class),
    decreases b.len(),
{
    if b.len() == 0 {
        assert(a + b == a);
        assert(readings(a, class) + Seq::<Seq<char>>::empty() == readings(a, class));
    } else {
        assert((a + b).drop_last() == a + b.drop_last());
        assert((a + b).last() == b.last());
        lemma_readings_of_both(a, b.drop_last(), class);
    }
}

/// The first piece of a text begins with what stands before every separator.
proof fn lemma_first_piece(x: Seq<char>, c: char, tail: Seq<char>) -> (cut: (
    Seq<char>,
    Seq<Seq<char>>,
))
    requires
        !x.contains(c),
    ensures
        text::split(x + tail, seq![c]) == seq![x + cut.0] + cut.1,
{
    if tail.contains(c) {
        let i = text::lemma_cut_at(tail, c);
        let head = tail.take(i);
        let rest = tail.skip(i + 1);
        assert forall|j: int| 0 <= j < (x + head).len() implies #[trigger] (x + head)[j] != c by {
            if j < x.len() {
                assert(x.contains(x[j]));
            } else {
                assert(head.contains(head[j - x.len()]));
            }
        }
        assert(x + tail == (x + head) + seq![c] + rest);
        text::lemma_split_head(x + head, c, rest);
        (head, text::split(rest, seq![c]))
    } else {
        assert forall|j: int| 0 <= j < (x + tail).len() implies #[trigger] (x + tail)[j] != c by {
            if j < x.len() {
                assert(x.contains(x[j]));
            } else {
                assert(tail.contains(tail[j - x.len()]));
            }
        }
        text::lemma_split_whole(x + tail, c);
        let none = Seq::<Seq<char>>::empty();
        assert(seq![x + tail] == seq![x + tail] + none);
        (tail, none)
    }
}

/// A text in parts of which none holds a character does not hold it.
proof fn lemma_without(a: Seq<char>, b: Seq<char>, c: char)
    requires
        !a.contains(c),
        !b.contains(c),
    ensures
        !(a + b).contains(c),
{
    let s = a + b;
    assert forall|j: int| 0 <= j < s.len() implies #[trigger] s[j] != c by {
        if j < a.len() {
            assert(a.contains(a[j]));
        } else {
            assert(b.contains(b[j - a.len()]));
        }
    }
}

/// Three pieces that begin with numbers, and more behind them.
proof fn lemma_three_readings(
    pieces: (Seq<char>, Seq<char>, Seq<char>),
    numbers: (Seq<char>, Seq<char>, Seq<char>),
    more: Seq<Seq<char>>,
    class: Class,
)
    requires
        reading(pieces.0, class) == Some(numbers.0),
        reading(pieces.1, class) == Some(numbers.1),
        reading(pieces.2, class) == Some(numbers.2),
    ensures
        ({
            let all = readings(seq![pieces.0, pieces.1, pieces.2] + more, class);
            all.len() >= 3 && all[0] == numbers.0 && all[1] == numbers.1
        }),
{
    let three = seq![pieces.0, pieces.1, pieces.2];
    let two = seq![pieces.0, pieces.1];
    let one = seq![pieces.0];
    assert(three.drop_last() == two);
    assert(two.drop_last() == one);
    assert(one.drop_last() == Seq::<Seq<char>>::empty());
    assert(readings(one.drop_last(), class) == Seq::<Seq<char>>::empty());
    assert(readings(one, class) == seq![numbers.0]);
    assert(readings(two, class) == seq![numbers.0, numbers.1]);
    assert(readings(three, class) == seq![numbers.0, numbers.1, numbers.2]);
    lemma_readings_of_both(three, more, class);
}

/// A label and what stands before and behind it are no separators.
proof fn lemma_piece_without(n: Seq<char>, label: Seq<char>)
    requires
        number::is_digits(n),
        is_label(label),
    ensures
        !(seq![' '] + n + (seq![',', ' '] + label)).contains('='),
{
    lemma_digits_are_a_number(n);
    lemma_without(seq![',', ' '], label, '=');
    lemma_without(seq![' '], n, '=');
    lemma_without(seq![' '] + n, seq![',', ' '] + label, '=');
}

/// The last of the three pieces, up to the tail.
proof fn lemma_end_without(n: Seq<char>, share: Seq<char>)
    requires
        number::is_digits(n),
        number::is_digits(share),
    ensures
        !(seq![' '] + n + (seq![' ', '('] + share + seq!['%', ' '])).contains('='),
{
    lemma_digits_are_a_number(n);
    lemma_digits_are_a_number(share);
    lemma_without(seq![' '], n, '=');
    lemma_without(seq![' ', '('], share, '=');
    lemma_without(seq![' ', '('] + share, seq!['%', ' '], '=');
    lemma_without(seq![' '] + n, seq![' ', '('] + share + seq!['%', ' '], '=');
}

/// Three texts without an equals sign are cut apart where one stands between
/// them.
proof fn lemma_three_cuts(
    a: Seq<char>,
    b: Seq<char>,
    c: Seq<char>,
    rest: Seq<char>,
)
    requires
        !a.contains('='),
        !b.contains('='),
        !c.contains('='),
    ensures
        text::split(a + seq!['='] + (b + seq!['='] + (c + seq!['='] + rest)), seq!['=']) == seq![
            a,
            b,
            c,
        ] + text::split(rest, seq!['=']),
{
    let eq = seq!['='];
    text::lemma_split_head(a, '=', b + eq + (c + eq + rest));
    text::lemma_split_head(b, '=', c + eq + rest);
    text::lemma_split_head(c, '=', rest);
    let tail = text::split(rest, eq);
    assert(seq![a] + (seq![b] + (seq![c] + tail)) =~= seq![a, b, c] + tail);
}

proof fn lemma_counters_assigned(
    labels: (Seq<char>, Seq<char>, Seq<char>),
    counters: (Seq<char>, Seq<char>, Seq<char>),
    share: Seq<char>,
    tail: Seq<char>,
)
    requires
        is_label(labels.0) && is_label(labels.1) && is_label(labels.2),
        number::is_digits(counters.0) && number::is_digits(counters.1) && number::is_digits(
            counters.2,
        ),
        number::is_digits(share),
    ensures
        ({
            let numbers = assigned(counters_text(labels, counters, share, tail), Class::Digit);
            numbers.len() >= 3 && numbers[0] == counters.0 && numbers[1] == counters.1
        }),
{
    let line = counters_text(labels, counters, share, tail);
    let eq = seq!['='];
    let r1 = seq![',', ' '] + labels.1;
    let r2 = seq![',', ' '] + labels.2;
    let r3 = seq![' ', '('] + share + seq!['%', ' '];
    let p1 = seq![' '] + counters.0 + r1;
    let p2 = seq![' '] + counters.1 + r2;
    let x = seq![' '] + counters.2 + r3;
    assert("="@ == eq) by {
        reveal_strlit("=");
    }
    assert(line == labels.0 + eq + (p1 + eq + (p2 + eq + (x + tail)))) by {
        reveal_strlit("= ");
        reveal_strlit(", ");
        reveal_strlit(" (");
        reveal_strlit("% ");
    }
    lemma_piece_without(counters.0, labels.1);
    lemma_piece_without(counters.1, labels.2);
    lemma_end_without(counters.2, share);
    lemma_three_cuts(labels.0, p1, p2, x + tail);
    let (head, more) = lemma_first_piece(x, '=', tail);
    let p3 = seq![' '] + counters.2 + (r3 + head);
    assert(x + head =~= p3);
    assert(text::split(line, eq).skip(1) =~= seq![p1, p2, p3] + more);
    lemma_reading_of_digits(counters.0, r1);
    lemma_reading_of_digits(counters.1, r2);
    lemma_reading_of_digits(counters.2, r3 + head);
    lemma_three_readings((p1, p2, p3), counters, more, Class::Digit);
}

proof fn lemma_share_in_brackets(head: Seq<char>, share: Seq<char>, tail: Seq<char>)
    requires
        !head.contains('('),
        number::is_digits(share),
    ensures
        percent_in_brackets(head + seq!['('] + (share + seq!['%'] + tail)) == Some(share),
{
    reveal_strlit("(");
    reveal_strlit("%");
    assert("("@ == seq!['(']);
    assert("%"@ == seq!['%']);
    lemma_digits_are_a_number(share);
    let x = share + seq!['%'];
    lemma_without(share, seq!['%'], '(');
    text::lemma_split_head(head, '(', x + tail);
    let (cut, more) = lemma_first_piece(x, '(', tail);
    let part = share + seq!['%'] + cut;
    let parts = text::split(head + seq!['('] + (x + tail), seq!['(']);
    assert(parts == seq![head] + (seq![part] + more));
    assert(parts[1] == part);
    text::lemma_find_char(share, '%', cut);
    assert(part.take(share.len() as int) == share);
    assert(text::is_digit(share[0]));
    assert(text::is_digit(share[share.len() - 1]));
    text::lemma_leading_is(share, Class::Space, 0);
    assert(share.skip(0) == share);
    text::lemma_trailing_is(share, Class::Space, 0);
    assert(share.take(share.len() as int) == share);
}

/// A Windows counters line says the same whatever its labels are: its counters
/// by their position, and the share in its brackets.
pub proof fn law_counters_in_any_language(
    labels: (Seq<char>, Seq<char>, Seq<char>),
    counters: (Seq<char>, Seq<char>, Seq<char>),
    share: Seq<char>,
    tail: Seq<char>,
)
    requires
        is_label(labels.0) && is_label(labels.1) && is_label(labels.2),
        number::is_digits(counters.0) && number::is_digits(counters.1) && number::is_digits(
            counters.2,
        ),
        number::is_digits(share),
    ensures
        windows_stats(counters_text(labels, counters, share, tail)) == Some(
            PingModel {
                transmitted: value::count_of(counters.0),
                received: value::count_of(counters.1),
                loss_pct: LossModel::Printed(share),
                rtt_ms: None,
            },
        ),
{
    let line = counters_text(labels, counters, share, tail);
    lemma_counters_assigned(labels, counters, share, tail);
    reveal_strlit("= ");
    reveal_strlit(", ");
    reveal_strlit(" (");
    reveal_strlit("% ");
    reveal_strlit("=");
    reveal_strlit("%");
    assert("="@ == seq!['=']);
    assert("%"@ == seq!['%']);
    lemma_digits_are_a_number(counters.0);
    lemma_digits_are_a_number(counters.1);
    lemma_digits_are_a_number(counters.2);
    let h1 = labels.0 + "= "@ + counters.0 + ", "@;
    let h2 = labels.1 + "= "@ + counters.1 + ", "@;
    let h3 = labels.2 + "= "@ + counters.2 + seq![' '];
    lemma_without(labels.0, "= "@, '(');
    lemma_without(labels.0 + "= "@, counters.0, '(');
    lemma_without(labels.0 + "= "@ + counters.0, ", "@, '(');
    lemma_without(labels.1, "= "@, '(');
    lemma_without(labels.1 + "= "@, counters.1, '(');
    lemma_without(labels.1 + "= "@ + counters.1, ", "@, '(');
    lemma_without(labels.2, "= "@, '(');
    lemma_without(labels.2 + "= "@, counters.2, '(');
    lemma_without(labels.2 + "= "@ + counters.2, seq![' '], '(');
    lemma_without(h1, h2, '(');
    lemma_without(h1 + h2, h3, '(');
    let head = h1 + h2 + h3;
    let behind = seq![' '] + tail;
    assert(line == head + seq!['('] + (share + seq!['%'] + behind));
    lemma_share_in_brackets(head, share, behind);
    assert(line[head.len() as int + 1 + share.len()] == '%');
    text::lemma_contains_char(line, '%');
    assert(line[labels.0.len() as int] == '=');
    text::lemma_contains_char(line, '=');
}

/// A line gives Windows times only if each number read from it carries `ms`,
/// so counters cannot be mistaken for them.
pub proof fn law_windows_times_carry_their_unit(line: Seq<char>)
    ensures
        windows_rtt_line(line) is Some ==> forall|i: int|
            1 <= i < text::split(line, "="@).len() && reading(
                #[trigger] text::split(line, "="@)[i],
                Class::DigitOrDot,
            ) is Some ==> carries_unit(text::split(line, "="@)[i]),
{
    let pieces = text::split(line, "="@);
    assert forall|i: int|
        windows_rtt_line(line) is Some && 1 <= i < pieces.len() && reading(
            #[trigger] pieces[i],
            Class::DigitOrDot,
        ) is Some implies carries_unit(pieces[i]) by {
        assert(pieces.skip(1)[i - 1] == pieces[i]);
    }
}

/// Whether a text is a number that stands between slashes: without a slash,
/// an equals sign or white space.
pub open spec fn is_figure(s: Seq<char>) -> bool {
    &&& number::is_number(s)
    &&& text::is_word(s)
    &&& !s.contains('/')
    &&& !s.contains('=')
}

/// A text without white space is left as it is by trimming.
proof fn lemma_trim_word(w: Seq<char>)
    requires
        text::is_word(w),
    ensures
        text::trim(w, Class::Space) == w,
{
    let none = Seq::<char>::empty();
    assert(!text::is_space(w[0]) && !text::is_space(w[w.len() - 1]));
    text::law_trim(none, w, none, Class::Space);
    assert(none + w + none == w);
}

/// The first three parts between slashes, whatever follows.
proof fn lemma_three_parts(a: Seq<char>, b: Seq<char>, c: Seq<char>, rest: Seq<char>)
    requires
        !a.contains('/') && !b.contains('/') && !c.contains('/'),
        rest.len() == 0 || rest[0] == '/',
    ensures
        ({
            let parts = text::split(
                a + seq!['/'] + (b + seq!['/'] + (c + rest)),
                seq!['/'],
            );
            parts.len() >= 3 && parts[0] == a && parts[1] == b && parts[2] == c
        }),
{
    text::lemma_split_head(a, '/', b + seq!['/'] + (c + rest));
    text::lemma_split_head(b, '/', c + rest);
    if rest.len() == 0 {
        assert(c + rest == c);
        text::lemma_split_whole(c, '/');
    } else {
        assert(c + rest == c + seq!['/'] + rest.skip(1));
        text::lemma_split_head(c, '/', rest.skip(1));
    }
}

/// What is left of the end of a timing line without its unit.
proof fn lemma_timing_core(core: Seq<char>, rest: Seq<char>)
    requires
        core.len() > 0,
        !text::is_space(core[0]) && !text::is_space(core.last()),
        rest.len() == 0 || rest[0] == '/',
    ensures
        ({
            let kept = if rest.len() == 0 {
                rest
            } else {
                text::trim_end(rest, Class::Space)
            };
            &&& timing_parts(seq![' '] + core + rest + seq![' ', 'm', 's']) == text::split(
                core + kept,
                seq!['/'],
            )
            &&& kept.len() == 0 || kept[0] == '/'
        }),
{
    reveal_strlit("ms");
    reveal_strlit("/");
    assert("ms"@ == seq!['m', 's']);
    assert("/"@ == seq!['/']);
    let none = Seq::<char>::empty();
    let values = seq![' '] + core + rest + seq![' ', 'm', 's'];
    let whole = core + rest + seq![' ', 'm', 's'];
    let open = core + rest + seq![' '];
    assert(values == seq![' '] + whole + none);
    assert(whole[0] == core[0] && whole.last() == 's');
    text::law_trim(seq![' '], whole, none, Class::Space);
    assert(whole == open + "ms"@);
    assert(open.last() == ' ');
    text::law_trim_end_pattern(open, "ms"@);
    if rest.len() == 0 {
        assert(open == none + core + seq![' ']);
        text::law_trim(none, core, seq![' '], Class::Space);
        assert(core + rest == core);
    } else {
        let kept = text::trim_end(rest, Class::Space);
        let k = text::trailing(rest, Class::Space) as int;
        text::lemma_trailing(rest, Class::Space);
        assert(k < rest.len()) by {
            if k >= rest.len() {
                assert(Class::Space.has(rest[0]));
            }
        }
        let blank = rest.skip(rest.len() - k) + seq![' '];
        assert(rest == kept + rest.skip(rest.len() - k));
        assert forall|i: int| 0 <= i < blank.len() implies Class::Space.has(
            #[trigger] blank[i],
        ) by {
            if i < k {
                assert(blank[i] == rest[rest.len() - k + i]);
            }
        }
        let m = core + kept;
        assert(open == none + m + blank);
        assert(m[0] == core[0] && m.last() == kept.last());
        assert(kept.last() == rest[rest.len() - k - 1]);
        text::law_trim(none, m, blank, Class::Space);
    }
}

/// The parts of the figures of a timing line.
proof fn lemma_timing_parts(a: Seq<char>, b: Seq<char>, c: Seq<char>, rest: Seq<char>)
    requires
        is_figure(a) && is_figure(b) && is_figure(c),
        rest.len() == 0 || rest[0] == '/',
    ensures
        ({
            let core = a + seq!['/'] + (b + seq!['/'] + c);
            let parts = timing_parts(seq![' '] + core + rest + seq![' ', 'm', 's']);
            parts.len() >= 3 && parts[0] == a && parts[1] == b && parts[2] == c
        }),
{
    let core = a + seq!['/'] + (b + seq!['/'] + c);
    assert(!text::is_space(a[0]) && !text::is_space(c[c.len() - 1]));
    assert(core[0] == a[0] && core.last() == c[c.len() - 1]);
    lemma_timing_core(core, rest);
    let kept = if rest.len() == 0 {
        rest
    } else {
        text::trim_end(rest, Class::Space)
    };
    assert(core + kept =~= a + seq!['/'] + (b + seq!['/'] + (c + kept)));
    lemma_three_parts(a, b, c, kept);
}

/// What stands behind the last equals sign.
proof fn lemma_behind_label(label: Seq<char>, values: Seq<char>)
    requires
        !values.contains('='),
    ensures
        text::after_last(label + seq!['='] + values, '=') == Some(values),
{
    let line = label + seq!['='] + values;
    let n = label.len() as int;
    assert forall|i: int| n < i < line.len() implies #[trigger] line[i] != '=' by {
        assert(line[i] == values[i - n - 1]);
        assert(values.contains(values[i - n - 1]));
    }
    text::lemma_after_last_is(line, '=', n);
    assert(line.skip(n + 1) =~= values);
}

/// What the front of a text contains, the text contains.
proof fn lemma_contains_front(a: Seq<char>, b: Seq<char>, pat: Seq<char>)
    requires
        text::contains(a, pat),
    ensures
        text::contains(a + b, pat),
{
    let i = choose|i: int| text::occurs_at(a, pat, i);
    assert((a + b).subrange(i, i + pat.len()) =~= a.subrange(i, i + pat.len()));
    assert(text::occurs_at(a + b, pat, i));
}

/// The times of an iputils or BSD timing line are its first three figures, in
/// this order, whatever its label says and whatever figures follow.
#[verifier::spinoff_prover]
pub proof fn law_times_of_a_timing_line(
    label: Seq<char>,
    a: Seq<char>,
    b: Seq<char>,
    c: Seq<char>,
    rest: Seq<char>,
)
    requires
        text::contains(label, "min/avg/max"@),
        is_figure(a) && is_figure(b) && is_figure(c),
        rest.len() == 0 || rest[0] == '/',
        !rest.contains('='),
    ensures
        posix_rtt(
            label + "= "@ + a + "/"@ + b + "/"@ + c + rest + " ms"@,
        ) == Some((a, b, c)),
{
    let line = label + "= "@ + a + "/"@ + b + "/"@ + c + rest + " ms"@;
    let core = a + seq!['/'] + (b + seq!['/'] + c);
    let values = seq![' '] + core + rest + seq![' ', 'm', 's'];
    assert(line =~= label + seq!['='] + values) by {
        reveal_strlit("= ");
        reveal_strlit("/");
        reveal_strlit(" ms");
    }
    lemma_timing_values(a, b, c, rest);
    lemma_behind_label(label, values);
    assert(line =~= label + (seq!['='] + values));
    lemma_contains_front(label, seq!['='] + values, "min/avg/max"@);
    lemma_timing_parts(a, b, c, rest);
    lemma_trim_word(a);
    lemma_trim_word(b);
    lemma_trim_word(c);
}

/// The figures of a timing line hold no equals sign.
proof fn lemma_timing_values(a: Seq<char>, b: Seq<char>, c: Seq<char>, rest: Seq<char>)
    requires
        !a.contains('=') && !b.contains('=') && !c.contains('=') && !rest.contains('='),
    ensures
        !(seq![' '] + (a + seq!['/'] + (b + seq!['/'] + c)) + rest + seq![' ', 'm', 's']).contains(
            '=',
        ),
{
    let bc = b + seq!['/'] + c;
    let core = a + seq!['/'] + bc;
    lemma_without(b, seq!['/'], '=');
    lemma_without(b + seq!['/'], c, '=');
    lemma_without(a, seq!['/'], '=');
    lemma_without(a + seq!['/'], bc, '=');
    lemma_without(seq![' '], core, '=');
    lemma_without(seq![' '] + core, rest, '=');
    lemma_without(seq![' '] + core + rest, seq![' ', 'm', 's'], '=');
}

/// A Windows timing line with its labels in some language.
pub open spec fn times_text(
    labels: (Seq<char>, Seq<char>, Seq<char>),
    times: (Seq<char>, Seq<char>, Seq<char>),
    rest: Seq<char>,
) -> Seq<char> {
    labels.0 + "= "@ + times.0 + "ms, "@ + labels.1 + "= "@ + times.1 + "ms, "@ + labels.2 + "= "@
        + times.2 + "ms"@ + rest
}

/// Digits in front of the unit are the number that a piece begins with, and
/// carry the unit.
proof fn lemma_reading_with_unit(n: Seq<char>, rest: Seq<char>)
    requires
        number::is_digits(n),
    ensures
        reading(seq![' '] + n + (seq!['m', 's'] + rest), Class::DigitOrDot) == Some(n),
        carries_unit(seq![' '] + n + (seq!['m', 's'] + rest)),
{
    reveal_strlit("ms");
    assert("ms"@ == seq!['m', 's']);
    let behind = seq!['m', 's'] + rest;
    let piece = seq![' '] + n + behind;
    let bare = n + behind;
    assert(text::is_digit(n[0]));
    assert(piece[1] == n[0]);
    text::lemma_leading_is(piece, Class::Space, 1);
    assert(piece.skip(1) == bare);
    assert forall|i: int| 0 <= i < n.len() implies Class::DigitOrDot.has(#[trigger] bare[i]) by {
        assert(text::is_digit(n[i]));
    }
    assert(bare[n.len() as int] == 'm');
    text::lemma_leading_is(bare, Class::DigitOrDot, n.len() as int);
    assert(bare.take(n.len() as int) == n);
    assert(bare.skip(n.len() as int) == behind);
    lemma_digits_are_a_number(n);
    text::lemma_leading_is(behind, Class::Space, 0);
    assert(behind.skip(0) == behind);
    assert(behind.subrange(0, 2) == "ms"@);
}

/// A piece of a Windows timing line holds no equals sign.
proof fn lemma_unit_piece_without(n: Seq<char>, rest: Seq<char>)
    requires
        number::is_digits(n),
        !rest.contains('='),
    ensures
        !(seq![' '] + n + (seq!['m', 's'] + rest)).contains('='),
{
    lemma_digits_are_a_number(n);
    lemma_without(seq![' '], n, '=');
    lemma_without(seq!['m', 's'], rest, '=');
    lemma_without(seq![' '] + n, seq!['m', 's'] + rest, '=');
}

/// Three pieces with their units behind an equals sign each.
proof fn lemma_times_cut(
    label: Seq<char>,
    times: (Seq<char>, Seq<char>, Seq<char>),
    r1: Seq<char>,
    r2: Seq<char>,
    r3: Seq<char>,
)
    requires
        !label.contains('=') && !r1.contains('=') && !r2.contains('=') && !r3.contains('='),
        number::is_digits(times.0) && number::is_digits(times.1) && number::is_digits(times.2),
    ensures
        ({
            let eq = seq!['='];
            let p1 = seq![' '] + times.0 + (seq!['m', 's'] + r1);
            let p2 = seq![' '] + times.1 + (seq!['m', 's'] + r2);
            let p3 = seq![' '] + times.2 + (seq!['m', 's'] + r3);
            let line = label + eq + (p1 + eq + (p2 + eq + p3));
            &&& all_carry_unit(text::split(line, eq).skip(1))
            &&& readings(text::split(line, eq).skip(1), Class::DigitOrDot) == seq![
                times.0,
                times.1,
                times.2,
            ]
        }),
{
    let eq = seq!['='];
    let p1 = seq![' '] + times.0 + (seq!['m', 's'] + r1);
    let p2 = seq![' '] + times.1 + (seq!['m', 's'] + r2);
    let p3 = seq![' '] + times.2 + (seq!['m', 's'] + r3);
    let line = label + eq + (p1 + eq + (p2 + eq + p3));
    lemma_unit_piece_without(times.0, r1);
    lemma_unit_piece_without(times.1, r2);
    lemma_unit_piece_without(times.2, r3);
    lemma_three_cuts(label, p1, p2, p3);
    text::lemma_split_whole(p3, '=');
    assert(text::split(line, eq).skip(1) =~= seq![p1, p2, p3]);
    lemma_reading_with_unit(times.0, r1);
    lemma_reading_with_unit(times.1, r2);
    lemma_reading_with_unit(times.2, r3);
    lemma_exactly_three_readings((p1, p2, p3), times, Class::DigitOrDot);
}

/// Three units make three.
proof fn lemma_three_units(x1: Seq<char>, x2: Seq<char>, x3: Seq<char>, rest: Seq<char>)
    ensures
        text::count(
            x1 + seq!['m', 's'] + (x2 + seq!['m', 's'] + (x3 + seq!['m', 's'] + rest)),
            seq!['m', 's'],
        ) >= 3,
{
    let u = seq!['m', 's'];
    text::lemma_count_grows(x1, u, x2 + u + (x3 + u + rest));
    text::lemma_count_grows(x2, u, x3 + u + rest);
    text::lemma_count_grows(x3, u, rest);
}

/// A Windows timing line, by its pieces.
proof fn lemma_times_text(
    labels: (Seq<char>, Seq<char>, Seq<char>),
    times: (Seq<char>, Seq<char>, Seq<char>),
    rest: Seq<char>,
)
    ensures
        ({
            let eq = seq!['='];
            let u = seq!['m', 's'];
            let r1 = seq![',', ' '] + labels.1;
            let r2 = seq![',', ' '] + labels.2;
            let p1 = seq![' '] + times.0 + (u + r1);
            let p2 = seq![' '] + times.1 + (u + r2);
            let p3 = seq![' '] + times.2 + (u + rest);
            let x1 = labels.0 + eq + (seq![' '] + times.0);
            let x2 = r1 + eq + (seq![' '] + times.1);
            let x3 = r2 + eq + (seq![' '] + times.2);
            let line = times_text(labels, times, rest);
            &&& line == labels.0 + eq + (p1 + eq + (p2 + eq + p3))
            &&& line == x1 + u + (x2 + u + (x3 + u + rest))
        }),
{
    let u = seq!['m', 's'];
    let sign = seq!['='] + seq![' '];
    let comma = seq![',', ' '];
    assert("= "@ =~= sign) by {
        reveal_strlit("= ");
    }
    assert("ms, "@ =~= u + comma) by {
        reveal_strlit("ms, ");
    }
    assert("ms"@ =~= u) by {
        reveal_strlit("ms");
    }
    lemma_by_pieces(labels, times, (seq!['='], seq![' '], u, comma), rest);
    lemma_by_units(labels, times, (seq!['='], seq![' '], u, comma), rest);
}

/// A timing line as the texts that it is put together from: an equals sign, a
/// blank, the unit and what separates the times.
spec fn joined_times(
    labels: (Seq<char>, Seq<char>, Seq<char>),
    times: (Seq<char>, Seq<char>, Seq<char>),
    signs: (Seq<char>, Seq<char>, Seq<char>, Seq<char>),
    rest: Seq<char>,
) -> Seq<char> {
    let e = signs.0 + signs.1;
    let m = signs.2 + signs.3;
    labels.0 + e + times.0 + m + labels.1 + e + times.1 + m + labels.2 + e + times.2 + signs.2
        + rest
}

#[verifier::spinoff_prover]
proof fn lemma_by_pieces(
    labels: (Seq<char>, Seq<char>, Seq<char>),
    times: (Seq<char>, Seq<char>, Seq<char>),
    signs: (Seq<char>, Seq<char>, Seq<char>, Seq<char>),
    rest: Seq<char>,
)
    ensures
        ({
            let (e, b, u, c) = signs;
            joined_times(labels, times, signs, rest) == labels.0 + e + ((b + times.0 + (u + (c
                + labels.1))) + e + ((b + times.1 + (u + (c + labels.2))) + e + (b + times.2 + (u
                + rest))))
        }),
{
    let (e, b, u, c) = signs;
    let m = u + c;
    let first = b + times.0 + (u + (c + labels.1));
    let second = b + times.1 + (u + (c + labels.2));
    let last = b + times.2 + (u + rest);
    let head = labels.0 + (e + b) + times.0 + m + labels.1;
    let front = head + (e + b) + times.1 + m + labels.2;
    lemma_piece(labels.0, signs, times.0, labels.1);
    lemma_piece(head, signs, times.1, labels.2);
    lemma_last_piece(front, signs, times.2, rest);
    lemma_nested(labels.0 + e, first, e, second, last);
}

/// A piece behind what stands in front of it.
proof fn lemma_piece(
    front: Seq<char>,
    signs: (Seq<char>, Seq<char>, Seq<char>, Seq<char>),
    time: Seq<char>,
    label: Seq<char>,
)
    ensures
        front + (signs.0 + signs.1) + time + (signs.2 + signs.3) + label == front + signs.0 + (
        signs.1 + time + (signs.2 + (signs.3 + label))),
{
    let (e, b, u, c) = signs;
    assert((u + c) + label =~= u + (c + label));
    assert(front + (e + b) + time =~= front + e + (b + time));
    let x = front + e;
    let y = b + time;
    assert(x + y + (u + c) + label =~= x + (y + ((u + c) + label)));
}

/// The last piece behind what stands in front of it.
proof fn lemma_last_piece(
    front: Seq<char>,
    signs: (Seq<char>, Seq<char>, Seq<char>, Seq<char>),
    time: Seq<char>,
    rest: Seq<char>,
)
    ensures
        front + (signs.0 + signs.1) + time + signs.2 + rest == front + signs.0 + (signs.1 + time + (
        signs.2 + rest)),
{
    let (e, b, u, _) = signs;
    assert(front + (e + b) + time =~= front + e + (b + time));
    let x = front + e;
    let y = b + time;
    assert(x + y + u + rest =~= x + (y + (u + rest)));
}

/// Texts are put together in any order.
proof fn lemma_nested(a: Seq<char>, b: Seq<char>, e: Seq<char>, c: Seq<char>, d: Seq<char>)
    ensures
        (a + b) + e + c + e + d == a + (b + e + (c + e + d)),
{
    let x = c + e + d;
    assert((a + b) + e + c + e + d =~= (a + b) + e + x);
    assert((a + b) + e + x =~= a + (b + e + x));
}

#[verifier::spinoff_prover]
proof fn lemma_by_units(
    labels: (Seq<char>, Seq<char>, Seq<char>),
    times: (Seq<char>, Seq<char>, Seq<char>),
    signs: (Seq<char>, Seq<char>, Seq<char>, Seq<char>),
    rest: Seq<char>,
)
    ensures
        ({
            let (e, b, u, c) = signs;
            joined_times(labels, times, signs, rest) == (labels.0 + e + (b + times.0)) + u + (((c
                + labels.1) + e + (b + times.1)) + u + (((c + labels.2) + e + (b + times.2)) + u
                + rest))
        }),
{
    let (e, b, u, c) = signs;
    let m = u + c;
    let x1 = labels.0 + e + (b + times.0);
    let x2 = (c + labels.1) + e + (b + times.1);
    let x3 = (c + labels.2) + e + (b + times.2);
    let head = labels.0 + (e + b) + times.0;
    assert(head =~= x1);
    let next = head + m + labels.1 + (e + b) + times.1;
    assert(next =~= x1 + u + x2);
    let all = next + m + labels.2 + (e + b) + times.2;
    assert(all =~= x1 + u + x2 + u + x3);
    assert(x1 + u + x2 + u + x3 + u + rest =~= x1 + u + (x2 + u + (x3 + u + rest)));
}

/// A Windows timing line prints the minimum, the maximum and the average, in
/// this order and in any language; the times are reported as minimum, average
/// and maximum.
#[verifier::spinoff_prover]
pub proof fn law_times_in_any_language(
    labels: (Seq<char>, Seq<char>, Seq<char>),
    times: (Seq<char>, Seq<char>, Seq<char>),
    rest: Seq<char>,
)
    requires
        !labels.0.contains('=') && !labels.1.contains('=') && !labels.2.contains('='),
        number::is_digits(times.0) && number::is_digits(times.1) && number::is_digits(times.2),
        !rest.contains('='),
    ensures
        windows_rtt_line(times_text(labels, times, rest)) == Some((times.0, times.2, times.1)),
{
    let r1 = seq![',', ' '] + labels.1;
    let r2 = seq![',', ' '] + labels.2;
    let eq = seq!['='];
    assert("="@ == eq && "ms"@ == seq!['m', 's']) by {
        reveal_strlit("=");
        reveal_strlit("ms");
    }
    lemma_without(seq![',', ' '], labels.1, '=');
    lemma_without(seq![',', ' '], labels.2, '=');
    lemma_times_text(labels, times, rest);
    lemma_times_cut(labels.0, times, r1, r2, rest);
    lemma_three_units(
        labels.0 + eq + (seq![' '] + times.0),
        r1 + eq + (seq![' '] + times.1),
        r2 + eq + (seq![' '] + times.2),
        rest,
    );
}

proof fn lemma_exactly_three_readings(
    pieces: (Seq<char>, Seq<char>, Seq<char>),
    numbers: (Seq<char>, Seq<char>, Seq<char>),
    class: Class,
)
    requires
        reading(pieces.0, class) == Some(numbers.0),
        reading(pieces.1, class) == Some(numbers.1),
        reading(pieces.2, class) == Some(numbers.2),
    ensures
        readings(seq![pieces.0, pieces.1, pieces.2], class) == seq![
            numbers.0,
            numbers.1,
            numbers.2,
        ],
{
    let three = seq![pieces.0, pieces.1, pieces.2];
    let two = seq![pieces.0, pieces.1];
    let one = seq![pieces.0];
    assert(three.drop_last() == two);
    assert(two.drop_last() == one);
    assert(one.drop_last() == Seq::<Seq<char>>::empty());
    assert(readings(one.drop_last(), class) == Seq::<Seq<char>>::empty());
    assert(readings(one, class) == seq![numbers.0]);
    assert(readings(two, class) == seq![numbers.0, numbers.1]);
}

/// The words up to the first marker of a statistics line end in the number in
/// front of it.
proof fn lemma_last_word(x: Seq<char>, w: Seq<char>)
    requires
        text::is_word(w),
    ensures
        text::words(x + seq![' '] + w + seq![' ']).len() > 0,
        text::words(x + seq![' '] + w + seq![' ']).last() == w,
        text::words(w + seq![' ']) == seq![w],
{
    let none = Seq::<char>::empty();
    text::law_words(w, ' ', none);
    assert(w + seq![' '] + none == w + seq![' ']);
    assert(seq![w] + Seq::<Seq<char>>::empty() == seq![w]);
    text::law_words_of_both(x, ' ', w + seq![' ']);
    assert(x + seq![' '] + (w + seq![' ']) == x + seq![' '] + w + seq![' ']);
}

/// A pattern with a character that stands in the text at one place only, at or
/// before which nothing else fits, occurs there.
proof fn lemma_found_by(a: Seq<char>, pat: Seq<char>, b: Seq<char>, k: int)
    requires
        0 <= k < pat.len(),
        forall|i: int| 0 <= i < a.len() + k ==> #[trigger] (a + pat + b)[i] != pat[k],
    ensures
        text::find(a + pat + b, pat) == a.len(),
        text::before(a + pat + b, pat) == a,
        text::contains(a + pat + b, pat),
{
    let s = a + pat + b;
    let n = a.len() as int;
    assert(s.subrange(n, n + pat.len()) == pat);
    assert(text::occurs_at(s, pat, n));
    assert forall|i: int| 0 <= i < n implies !text::occurs_at(s, pat, i) by {
        if text::occurs_at(s, pat, i) {
            assert(s.subrange(i, i + pat.len())[k] == s[i + k]);
        }
    }
    text::lemma_find_is(s, pat, n);
    assert(s.take(n) == a);
}

/// A pattern with a character that the text does not hold does not occur.
proof fn lemma_not_found(s: Seq<char>, pat: Seq<char>, k: int)
    requires
        0 <= k < pat.len(),
        !s.contains(pat[k]),
    ensures
        !text::contains(s, pat),
{
    if text::contains(s, pat) {
        let i = choose|i: int| text::occurs_at(s, pat, i);
        assert(s.subrange(i, i + pat.len())[k] == s[i + k]);
        assert(s.contains(s[i + k]));
    }
}

/// A statistics line up to the number of packets received: the number of
/// packets transmitted and what follows it.
spec fn sent_text(sent: Seq<char>) -> Seq<char> {
    sent + " packets transmitted, "@
}

/// What stands before the packets received, with a blank at its end, and no
/// letter of the markers behind it.
spec fn back_text(sent: Seq<char>, back: Seq<char>) -> Seq<char> {
    sent_text(sent) + back + seq![' ']
}

proof fn lemma_sent_letters(i: int)
    requires
        0 <= i < " packets transmitted, "@.len(),
    ensures
        " packets transmitted, "@[i] != 'v',
        " packets transmitted, "@[i] != 'l',
        " packets transmitted, "@.len() == 22,
        " packets transmitted, "@.last() == ' ',
{
    reveal_strlit(" packets transmitted, ");
}

proof fn lemma_back_text(sent: Seq<char>, back: Seq<char>)
    requires
        number::is_digits(sent),
        number::is_digits(back),
    ensures
        !back_text(sent, back).contains('v'),
        !back_text(sent, back).contains('l'),
        text::words(back_text(sent, back)).len() > 0,
        text::words(back_text(sent, back)).last() == back,
        back_text(sent, back).len() >= 2,
        text::is_digit(back_text(sent, back)[back_text(sent, back).len() - 2]),
{
    let lit = " packets transmitted, "@;
    assert(lit.len() == 22) by {
        reveal_strlit(" packets transmitted, ");
    }
    lemma_sent_letters(0);
    assert forall|i: int| 0 <= i < lit.len() implies #[trigger] lit[i] != 'v' && lit[i] != 'l' by {
        lemma_sent_letters(i);
    }
    lemma_digits_are_a_number(sent);
    lemma_digits_are_a_number(back);
    lemma_without(sent, lit, 'v');
    lemma_without(sent, lit, 'l');
    lemma_without(sent + lit, back, 'v');
    lemma_without(sent + lit, back, 'l');
    lemma_without(sent + lit + back, seq![' '], 'v');
    lemma_without(sent + lit + back, seq![' '], 'l');
    lemma_digits_are_a_word(back);
    let x = sent_text(sent).drop_last();
    lemma_last_word(x, back);
    assert(x + seq![' '] == sent_text(sent));
    assert(x + seq![' '] + back + seq![' '] == back_text(sent, back));
    let all = back_text(sent, back);
    assert(all[all.len() - 2] == back[back.len() - 1]);
    assert(text::is_digit(back[back.len() - 1]));
}

proof fn lemma_digits_are_a_word(n: Seq<char>)
    requires
        number::is_digits(n),
    ensures
        text::is_word(n),
{
    assert forall|i: int| 0 <= i < n.len() implies !text::is_space(#[trigger] n[i]) by {
        assert(text::is_digit(n[i]));
    }
}

/// The number in front of the packets transmitted.
proof fn lemma_sent_ahead(sent: Seq<char>, rest: Seq<char>)
    requires
        number::is_digits(sent),
    ensures
        text::contains(sent_text(sent) + rest, "transmitted"@),
        number_ahead(sent_text(sent) + rest, "packets transmitted"@) == Some(sent),
{
    let line = sent_text(sent) + rest;
    let pat = "packets transmitted"@;
    let a = sent + seq![' '];
    let b = seq![',', ' '] + rest;
    lemma_digits_are_a_number(sent);
    lemma_digits_are_a_word(sent);
    lemma_without(sent, seq![' '], 'p');
    assert(line == a + pat + b) by {
        reveal_strlit("packets transmitted");
        reveal_strlit(" packets transmitted, ");
    }
    assert(pat[0] == 'p' && pat.len() == 19) by {
        reveal_strlit("packets transmitted");
    }
    text::law_replace_first(a, pat, b, Seq::empty());
    lemma_last_word(a, sent);
    let n = a.len() as int;
    assert(line.subrange(n, n + 19) == pat);
    assert(text::occurs_at(line, pat, n));
    assert(text::occurs_at(line, "transmitted"@, n + 8)) by {
        reveal_strlit("packets transmitted");
        reveal_strlit("transmitted");
        assert(line.subrange(n + 8, n + 19) == pat.subrange(8, 19));
        assert(pat.subrange(8, 19) == "transmitted"@);
    }
}

/// A word in front of a marker that is found by one of its letters.
proof fn lemma_number_found(head: Seq<char>, n: Seq<char>, marker: Seq<char>, rest: Seq<char>, k: int)
    requires
        text::words(head).len() > 0,
        text::words(head).last() == n,
        number::is_number(n),
        0 <= k < marker.len(),
        !head.contains(marker[k]),
        forall|i: int| 0 <= i < k ==> #[trigger] marker[i] != marker[k],
    ensures
        number_ahead(head + marker + rest, marker) == Some(n),
{
    let line = head + marker + rest;
    let m = head.len() as int;
    assert forall|i: int| 0 <= i < m + k implies #[trigger] line[i] != marker[k] by {
        if i < m {
            assert(head.contains(head[i]));
            assert(line[i] == head[i]);
        } else {
            assert(line[i] == marker[i - m]);
        }
    }
    lemma_found_by(head, marker, rest, k);
}

/// The longer marker does not stand where only the shorter one does.
proof fn lemma_no_longer_marker(head: Seq<char>, rest: Seq<char>)
    requires
        !head.contains('v'),
        !rest.contains('v'),
        head.len() >= 2,
        text::is_digit(head[head.len() - 2]),
    ensures
        !text::contains(head + "received"@ + rest, "packets received"@),
{
    let n = head.len() as int;
    let long = "packets received"@;
    let short = "received"@;
    let other = head + short + rest;
    assert(long.len() == 16 && long[13] == 'v' && long[6] == 's') by {
        reveal_strlit("packets received");
    }
    assert(short.len() == 8) by {
        reveal_strlit("received");
    }
    if text::contains(other, long) {
        let i = choose|i: int| text::occurs_at(other, long, i);
        let window = other.subrange(i, i + 16);
        assert(window[13] == other[i + 13] && window[6] == other[i + 6]);
        lemma_only_place(head, rest, i + 13);
        assert(other[i + 6] == head[n - 2]);
    }
}

/// The letter `v` stands at one place only.
proof fn lemma_only_place(head: Seq<char>, rest: Seq<char>, i: int)
    requires
        !head.contains('v'),
        !rest.contains('v'),
        0 <= i < (head + "received"@ + rest).len(),
        (head + "received"@ + rest)[i] == 'v',
    ensures
        i == head.len() + 5,
{
    reveal_strlit("received");
    let n = head.len() as int;
    if i < n {
        assert(head.contains(head[i]));
    } else if i >= n + 8 {
        assert(rest.contains(rest[i - n - 8]));
    } else {
        assert("received"@[i - n] == 'v');
    }
}

/// The number in front of the packets received, in either spelling.
proof fn lemma_back_ahead(sent: Seq<char>, back: Seq<char>, rest: Seq<char>)
    requires
        number::is_digits(sent),
        number::is_digits(back),
        !rest.contains('v'),
    ensures
        number_ahead(back_text(sent, back) + "packets received"@ + rest, "packets received"@)
            == Some(back),
        number_ahead(back_text(sent, back) + "received"@ + rest, "packets received"@) is None,
        number_ahead(back_text(sent, back) + "received"@ + rest, "received"@) == Some(back),
{
    let head = back_text(sent, back);
    lemma_back_text(sent, back);
    lemma_digits_are_a_number(back);
    lemma_no_longer_marker(head, rest);
    assert("packets received"@[13] == 'v' && forall|i: int|
        0 <= i < 13 ==> #[trigger] "packets received"@[i] != 'v') by {
        reveal_strlit("packets received");
    }
    assert("packets received"@.len() == 16) by {
        reveal_strlit("packets received");
    }
    assert("received"@[5] == 'v' && forall|i: int|
        0 <= i < 5 ==> #[trigger] "received"@[i] != 'v') by {
        reveal_strlit("received");
    }
    assert("received"@.len() == 8) by {
        reveal_strlit("received");
    }
    lemma_number_found(head, back, "packets received"@, rest, 13);
    lemma_number_found(head, back, "received"@, rest, 5);
}

/// The text of a share: digits and dots that denote a number.
pub open spec fn is_share(p: Seq<char>) -> bool {
    number::is_number(p) && forall|i: int|
        0 <= i < p.len() ==> text::is_digit(#[trigger] p[i]) || p[i] == '.'
}

/// The share in front of the packet loss.
proof fn lemma_share_ahead(x: Seq<char>, p: Seq<char>, more: Seq<char>)
    requires
        !x.contains('l'),
        is_share(p),
    ensures
        percent_ahead(
            x + seq![' '] + p + seq!['%', ' '] + "packet loss"@ + more,
            "packet loss"@,
        ) == Some(p),
{
    number::lemma_number_ends(p);
    let none = Seq::<char>::empty();
    let w = p + seq!['%'];
    let head = x + seq![' '] + w + seq![' '];
    let pat = "packet loss"@;
    let line = x + seq![' '] + p + seq!['%', ' '] + pat + more;
    reveal_strlit("packet loss");
    assert(pat.len() == 11 && pat[7] == 'l');
    assert(line == head + pat + more);
    assert forall|i: int| 0 <= i < p.len() implies #[trigger] p[i] != 'l' && p[i] != '%'
        && !text::is_space(p[i]) by {
        assert(text::is_digit(p[i]) || p[i] == '.');
    }
    assert(!p.contains('l'));
    lemma_without(x, seq![' '], 'l');
    lemma_without(p, seq!['%'], 'l');
    lemma_without(x + seq![' '], w, 'l');
    lemma_without(x + seq![' '] + w, seq![' '], 'l');
    let n = head.len() as int;
    assert forall|i: int| 0 <= i < n + 7 implies #[trigger] line[i] != 'l' by {
        if i < n {
            assert(head.contains(head[i]));
            assert(line[i] == head[i]);
        } else {
            assert(line[i] == pat[i - n]);
        }
    }
    lemma_found_by(head, pat, more, 7);
    assert(text::is_word(w)) by {
        assert forall|i: int| 0 <= i < w.len() implies !text::is_space(#[trigger] w[i]) by {
            if i < p.len() {
                assert(w[i] == p[i]);
            }
        }
    }
    lemma_last_word(x, w);
    assert(p[0] != '%' && p[p.len() - 1] != '%');
    text::law_trim(none, p, seq!['%'], Class::Percent);
    assert(none + p + seq!['%'] == w);
    assert(none + p == p);
}

/// A statistics line of iputils or, with `bsd`, of BSD: so many packets
/// transmitted and received, and what follows.
pub open spec fn statistics_text(sent: u32, back: u32, bsd: bool, rest: Seq<char>) -> Seq<char> {
    number::decimal(sent as nat) + " packets transmitted, "@ + number::decimal(back as nat) + (
    if bsd {
        " packets received"@
    } else {
        " received"@
    }) + rest
}

proof fn lemma_statistics(sent: u32, back: u32, bsd: bool, rest: Seq<char>)
    requires
        sent <= share::EXACT && back <= share::EXACT,
        !rest.contains('v'),
    ensures
        ({
            let line = statistics_text(sent, back, bsd, rest);
            let t = number::decimal(sent as nat);
            let r = number::decimal(back as nat);
            posix_stats(line) == Some(
                PingModel {
                    transmitted: sent as nat,
                    received: back as nat,
                    loss_pct: match percent_ahead(line, "packet loss"@) {
                        Some(loss) => LossModel::Printed(loss),
                        None => loss_between(t, r),
                    },
                    rtt_ms: None,
                },
            )
        }),
{
    let line = statistics_text(sent, back, bsd, rest);
    let t = number::decimal(sent as nat);
    let r = number::decimal(back as nat);
    number::lemma_decimal(sent as nat);
    number::lemma_decimal(back as nat);
    value::law_plain_counter_reads_back(sent as nat);
    value::law_plain_counter_reads_back(back as nat);
    let long = "packets received"@;
    let short = "received"@;
    assert(" packets received"@ == seq![' '] + long && " received"@ == seq![' '] + short) by {
        reveal_strlit(" packets received");
        reveal_strlit("packets received");
        reveal_strlit(" received");
        reveal_strlit("received");
    }
    let marker = if bsd {
        long
    } else {
        short
    };
    let behind = r + seq![' '] + marker + rest;
    assert(line =~= sent_text(t) + behind);
    assert(line =~= back_text(t, r) + marker + rest);
    lemma_sent_ahead(t, behind);
    lemma_back_ahead(t, r, rest);
}

/// Whether a text has none of the letters of the words that are looked for.
pub open spec fn is_plain(s: Seq<char>) -> bool {
    !s.contains('v') && !s.contains('l')
}

/// A statistics line with a share printed says how many packets were
/// transmitted and received, and the share as it is printed, in either
/// spelling and whatever follows.
#[verifier::spinoff_prover]
pub proof fn law_statistics_with_a_share(
    sent: u32,
    back: u32,
    bsd: bool,
    errors: Seq<char>,
    share: Seq<char>,
    rest: Seq<char>,
)
    requires
        sent <= share::EXACT && back <= share::EXACT,
        is_plain(errors),
        is_share(share),
        !rest.contains('v'),
    ensures
        posix_stats(
            statistics_text(
                sent,
                back,
                bsd,
                errors + ", "@ + share + "% packet loss"@ + rest,
            ),
        ) == Some(
            PingModel {
                transmitted: sent as nat,
                received: back as nat,
                loss_pct: LossModel::Printed(share),
                rtt_ms: None,
            },
        ),
{
    let behind = errors + ", "@ + share + "% packet loss"@ + rest;
    lemma_tail_letters(errors, share, rest);
    lemma_statistics(sent, back, bsd, behind);
    lemma_share_on_line(sent, back, bsd, errors, share, rest);
}

/// The share on a statistics line.
#[verifier::spinoff_prover]
proof fn lemma_share_on_line(
    sent: u32,
    back: u32,
    bsd: bool,
    errors: Seq<char>,
    share: Seq<char>,
    rest: Seq<char>,
)
    requires
        is_plain(errors),
        is_share(share),
    ensures
        percent_ahead(
            statistics_text(sent, back, bsd, errors + ", "@ + share + "% packet loss"@ + rest),
            "packet loss"@,
        ) == Some(share),
{
    let t = number::decimal(sent as nat);
    let r = number::decimal(back as nat);
    number::lemma_decimal(sent as nat);
    number::lemma_decimal(back as nat);
    lemma_back_text(t, r);
    let marker = if bsd {
        "packets received"@
    } else {
        "received"@
    };
    let x = back_text(t, r) + marker + errors + seq![','];
    assert(!marker.contains('l')) by {
        reveal_strlit("packets received");
        reveal_strlit("received");
    }
    lemma_without(back_text(t, r), marker, 'l');
    lemma_without(back_text(t, r) + marker, errors, 'l');
    lemma_without(back_text(t, r) + marker + errors, seq![','], 'l');
    lemma_share_ahead(x, share, rest);
    lemma_share_text(sent, back, bsd, errors, share, rest);
}

/// A statistics line as what stands in front of its share, and the rest.
#[verifier::spinoff_prover]
proof fn lemma_share_text(
    sent: u32,
    back: u32,
    bsd: bool,
    errors: Seq<char>,
    share: Seq<char>,
    rest: Seq<char>,
)
    ensures
        ({
            let t = number::decimal(sent as nat);
            let r = number::decimal(back as nat);
            let marker = if bsd {
                "packets received"@
            } else {
                "received"@
            };
            statistics_text(sent, back, bsd, errors + ", "@ + share + "% packet loss"@ + rest)
                == back_text(t, r) + marker + errors + seq![','] + seq![' '] + share + seq![
                '%',
                ' ',
            ] + "packet loss"@ + rest
        }),
{
    let t = number::decimal(sent as nat);
    let r = number::decimal(back as nat);
    let marker = if bsd {
        "packets received"@
    } else {
        "received"@
    };
    let words = if bsd {
        " packets received"@
    } else {
        " received"@
    };
    assert(words =~= seq![' '] + marker) by {
        reveal_strlit(" packets received");
        reveal_strlit("packets received");
        reveal_strlit(" received");
        reveal_strlit("received");
    }
    assert(", "@ =~= seq![','] + seq![' ']) by {
        reveal_strlit(", ");
    }
    assert("% packet loss"@ =~= seq!['%', ' '] + "packet loss"@) by {
        reveal_strlit("% packet loss");
        reveal_strlit("packet loss");
    }
    let head = back_text(t, r) + marker;
    assert(sent_text(t) + r + words =~= head);
    let comma = seq![','] + seq![' '];
    let loss = seq!['%', ' '] + "packet loss"@;
    assert(head + (errors + comma + share + loss + rest) =~= head + errors + seq![','] + seq![' ']
        + share + seq!['%', ' '] + "packet loss"@ + rest);
}

proof fn lemma_tail_letters(errors: Seq<char>, share: Seq<char>, rest: Seq<char>)
    requires
        !errors.contains('v'),
        is_share(share),
        !rest.contains('v'),
    ensures
        !(errors + ", "@ + share + "% packet loss"@ + rest).contains('v'),
{
    assert(!", "@.contains('v')) by {
        reveal_strlit(", ");
    }
    assert(!"% packet loss"@.contains('v')) by {
        reveal_strlit("% packet loss");
    }
    assert forall|i: int| 0 <= i < share.len() implies #[trigger] share[i] != 'v' by {
        assert(text::is_digit(share[i]) || share[i] == '.');
    }
    assert(!share.contains('v'));
    lemma_without(errors, ", "@, 'v');
    lemma_without(errors + ", "@, share, 'v');
    lemma_without(errors + ", "@ + share, "% packet loss"@, 'v');
    lemma_without(errors + ", "@ + share + "% packet loss"@, rest, 'v');
}

/// A statistics line without a share says how many packets were transmitted
/// and received, and leaves the share to those counters: nothing where nothing
/// was transmitted, and else what is missing of it.
pub proof fn law_statistics_without_a_share(sent: u32, back: u32, bsd: bool, rest: Seq<char>)
    requires
        back <= sent <= share::EXACT,
        is_plain(rest),
    ensures
        posix_stats(statistics_text(sent, back, bsd, rest)) == Some(
            PingModel {
                transmitted: sent as nat,
                received: back as nat,
                loss_pct: if sent == 0 {
                    LossModel::Zero
                } else {
                    LossModel::Share { lost: (sent - back) as u32, transmitted: sent }
                },
                rtt_ms: None,
            },
        ),
{
    let line = statistics_text(sent, back, bsd, rest);
    let t = number::decimal(sent as nat);
    let r = number::decimal(back as nat);
    number::lemma_decimal(sent as nat);
    number::lemma_decimal(back as nat);
    lemma_back_text(t, r);
    lemma_statistics(sent, back, bsd, rest);
    law_loss_of_counters(sent, back);
    let marker = if bsd {
        "packets received"@
    } else {
        "received"@
    };
    assert(!marker.contains('l')) by {
        reveal_strlit("packets received");
        reveal_strlit("received");
    }
    lemma_without(back_text(t, r), marker, 'l');
    lemma_without(back_text(t, r) + marker, rest, 'l');
    assert(line =~= back_text(t, r) + marker + rest) by {
        reveal_strlit(" packets received");
        reveal_strlit("packets received");
        reveal_strlit(" received");
        reveal_strlit("received");
    }
    assert("packet loss"@.len() == 11 && "packet loss"@[7] == 'l') by {
        reveal_strlit("packet loss");
    }
    lemma_not_found(line, "packet loss"@, 7);
}

proof fn lemma_no_times_since(said: Seq<LineModel>, i: int)
    requires
        0 <= i < said.len(),
        said[i].posix matches Some(s) && s.rtt_ms is None,
        forall|j: int| i <= j < said.len() ==> (#[trigger] said[j]).rtt_ms is None,
        forall|j: int| i < j < said.len() ==> (#[trigger] said[j]).posix is None,
    ensures
        after_lines(said) matches Some(s) && s.rtt_ms is None,
    decreases said.len(),
{
    assert(said[said.len() - 1].rtt_ms is None);
    if i < said.len() - 1 {
        let shorter = said.drop_last();
        assert(forall|j: int| 0 <= j < shorter.len() ==> #[trigger] shorter[j] == said[j]);
        lemma_no_times_since(shorter, i);
        assert(said[said.len() - 1].posix is None);
    }
}

/// The last iputils or BSD counters forget the times before them: with no such
/// times on their line or behind it, only Windows times are reported.
#[verifier::spinoff_prover]
pub proof fn law_new_counters_forget_times(output: Seq<char>, i: int)
    requires
        0 <= i < text::lines(output).len(),
        posix_stats(text::trim(text::lines(output)[i], Class::Space)) is Some,
        posix_rtt(text::trim(text::lines(output)[i], Class::Space)) is None,
        forall|j: int|
            i < j < text::lines(output).len() ==> is_other_line(#[trigger] text::lines(output)[j]),
    ensures
        summary_of(output) matches Some(s) && s.rtt_ms == windows_rtt(text::lines(output)),
{
    let lines = text::lines(output);
    let said = all_said(lines);
    assert forall|j: int| i < j < said.len() implies (#[trigger] said[j]).posix is None
        && said[j].rtt_ms is None by {
        assert(is_other_line(lines[j]));
    }
    lemma_no_times_since(said, i);
}

/// The Windows times are those of the first line that holds any, and there are
/// none where no line does.
pub proof fn law_first_windows_times(lines: Seq<Seq<char>>, i: int)
    requires
        0 <= i <= lines.len(),
        forall|j: int|
            0 <= j < i ==> windows_rtt_line(text::trim(#[trigger] lines[j], Class::Space)) is None,
        i < lines.len() ==> windows_rtt_line(text::trim(lines[i], Class::Space)) is Some,
    ensures
        windows_rtt(lines) == if i < lines.len() {
            windows_rtt_line(text::trim(lines[i], Class::Space))
        } else {
            None
        },
    decreases lines.len(),
{
    if i > 0 {
        let rest = lines.skip(1);
        assert(windows_rtt_line(text::trim(lines[0], Class::Space)) is None);
        assert forall|j: int| 0 <= j < i - 1 implies windows_rtt_line(
            text::trim(#[trigger] rest[j], Class::Space),
        ) is None by {
            assert(rest[j] == lines[j + 1]);
        }
        if i < lines.len() {
            assert(rest[i - 1] == lines[i]);
        }
        law_first_windows_times(rest, i - 1);
    }
}

/// The verdict on a ping: bad where nothing came back, a warning where less
/// came back than was sent, and else good.
pub proof fn law_verdict_on_a_ping(summary: PingModel)
    ensures
        summary.received == 0 <==> verdict_of(summary) == CardStatus::Bad,
        0 < summary.received < summary.transmitted <==> verdict_of(summary) == CardStatus::Warn,
        summary.received > 0 && summary.received >= summary.transmitted <==> verdict_of(summary)
            == CardStatus::Good,
{
}

/// A number in decimal holds no brace.
proof fn lemma_decimal_without_brace(n: nat)
    ensures
        !number::decimal(n).contains('{'),
{
    number::lemma_decimal(n);
    lemma_digits_are_a_number(number::decimal(n));
}

/// The line with the counters is its phrase with the packets received, the
/// packets transmitted and the share in their places.
pub proof fn law_counters_line(
    summary: PingModel,
    loss: Seq<char>,
    messages: Messages,
    a: Seq<char>,
    b: Seq<char>,
    c: Seq<char>,
    d: Seq<char>,
)
    requires
        messages.net_ping_summary@ == a + "{recv}"@ + b + "{sent}"@ + c + "{loss}"@ + d,
        !a.contains('{') && !b.contains('{') && !c.contains('{'),
    ensures
        counters_line(summary, loss, messages) == a + number::decimal(summary.received) + b
            + number::decimal(summary.transmitted) + c + loss + d,
{
    reveal_strlit("{recv}");
    reveal_strlit("{sent}");
    reveal_strlit("{loss}");
    let recv = number::decimal(summary.received);
    let sent = number::decimal(summary.transmitted);
    lemma_decimal_without_brace(summary.received);
    lemma_decimal_without_brace(summary.transmitted);
    let rest = b + "{sent}"@ + c + "{loss}"@ + d;
    assert(messages.net_ping_summary@ =~= a + "{recv}"@ + rest);
    text::law_replace_first(a, "{recv}"@, rest, recv);
    let a2 = a + recv + b;
    let rest2 = c + "{loss}"@ + d;
    lemma_without(a, recv, '{');
    lemma_without(a + recv, b, '{');
    assert(a + recv + rest =~= a2 + "{sent}"@ + rest2);
    text::law_replace_first(a2, "{sent}"@, rest2, sent);
    let a3 = a2 + sent + c;
    lemma_without(a2, sent, '{');
    lemma_without(a2 + sent, c, '{');
    assert(a2 + sent + rest2 =~= a3 + "{loss}"@ + d);
    text::law_replace_first(a3, "{loss}"@, d, loss);
}

/// The summary card is named after the host, holds the output and the verdict,
/// and has a line with the counters and, where there are times, one with the
/// minimum, the average and the maximum in this order.
pub proof fn law_summary_card(
    host: Seq<char>,
    output: Seq<char>,
    summary: PingModel,
    figures: PingFigures,
    messages: Messages,
)
    ensures
        ({
            let card = summary_model(host, output, summary, figures, messages);
            &&& card.title == host
            &&& card.raw == Some(output)
            &&& card.status == Some(verdict_of(summary))
            &&& card.lines.len() == if figures.rtt is Some {
                2int
            } else {
                1
            }
            &&& card.lines[0] == counters_line(summary, figures.loss@, messages)
            &&& figures.rtt matches Some(times) ==> card.lines[1] == messages.net_ping_rtt@ + seq![
                ':',
                ' ',
            ] + times.min@ + seq![' ', '/', ' '] + times.avg@ + seq![' ', '/', ' '] + times.max@
                + seq![' ', 'm', 's']
        }),
{
    reveal_strlit(": ");
    reveal_strlit(" / ");
    reveal_strlit(" ms");
    assert(": "@ =~= seq![':', ' ']);
    assert(" / "@ =~= seq![' ', '/', ' ']);
    assert(" ms"@ =~= seq![' ', 'm', 's']);
}

/// The scale follows the numbers: times have three decimals where the maximum
/// is a whole number below ten, and one from ten on.
pub proof fn law_scale_follows_the_maximum(n: nat)
    ensures
        decimals_for(number::decimal(n)) == if n < 10 {
            3u8
        } else {
            1u8
        },
{
    value::law_whole_number_below_ten(n);
}

/// The command sends four requests to the host, its last argument, within
/// twenty-five seconds.
pub proof fn law_ping_command(host: Seq<char>, windows: bool)
    ensures
        ({
            let command = command_model(host, windows);
            &&& command.program == "ping"@
            &&& command.budget_secs == 25
            &&& command.args == seq![
                if windows {
                    "-n"@
                } else {
                    "-c"@
                },
                seq!['4'],
                host,
            ]
        }),
{
    assert(number::decimal(4) == seq!['4']);
}

/// A run that did not finish is answered by one card, the one that says why;
/// one that finished by the cards of its output.
pub proof fn law_answer_of_a_run<L: Fn(&Number, &Number) -> String, T: Fn(&Number, u8) -> String>(
    cards: Seq<CardModel>,
    host: Seq<char>,
    run: ToolRun,
    windows: bool,
    print_loss: L,
    print_number: T,
    messages: Messages,
)
    requires
        are_answer(cards, host, run, windows, print_loss, print_number, messages),
    ensures
        match run {
            ToolRun::Finished { stdout, stderr } => {
                let output = tool::both_outputs(
                    tool::lossy_text(stdout@),
                    tool::lossy_text(stderr@),
                );
                cards.last().raw == Some(output) && cards.last().title == messages.net_raw_output@
            },
            ToolRun::Missing => cards.len() == 1 && cards[0].title
                == messages.net_tool_missing_binary@,
            ToolRun::Failed(reason) => cards.len() == 1 && cards[0].title == "ping"@
                && cards[0].lines == seq![reason@],
            ToolRun::TimedOut => cards.len() == 1 && cards[0].title == "ping"@ && cards[0].status
                == Some(CardStatus::Warn),
        },
{
}

proof fn lemma_no_times_from(said: Seq<LineModel>, i: int)
    requires
        0 <= i < said.len(),
        forall|j: int|
            0 <= j < i ==> (#[trigger] said[j]).posix is None && said[j].windows is None,
        forall|j: int| i <= j < said.len() ==> (#[trigger] said[j]).rtt_ms is None,
        forall|j: int|
            0 <= j < said.len() ==> ((#[trigger] said[j]).posix matches Some(s) ==> s.rtt_ms
                is None) && (said[j].windows matches Some(s) ==> s.rtt_ms is None),
    ensures
        after_lines(said) matches Some(s) ==> s.rtt_ms is None,
    decreases said.len(),
{
    let shorter = said.drop_last();
    assert(forall|j: int| 0 <= j < shorter.len() ==> #[trigger] shorter[j] == said[j]);
    assert(said[said.len() - 1].rtt_ms is None);
    if i < said.len() - 1 {
        lemma_no_times_from(shorter, i);
    } else if after_lines(shorter) is Some {
        let k = lemma_known_from(shorter);
        assert(said[k].posix is None && said[k].windows is None);
    }
}

/// Times before all counters belong to none: with no iputils or BSD times
/// from the first counters on, only Windows times are reported.
#[verifier::spinoff_prover]
pub proof fn law_times_before_counters_do_not_count(output: Seq<char>, i: int)
    requires
        0 <= i < text::lines(output).len(),
        is_statistics(text::lines(output)[i]),
        forall|j: int| 0 <= j < i ==> !is_statistics(#[trigger] text::lines(output)[j]),
        forall|j: int|
            i <= j < text::lines(output).len() ==> posix_rtt(
                text::trim(#[trigger] text::lines(output)[j], Class::Space),
            ) is None,
    ensures
        summary_of(output) matches Some(s) && s.rtt_ms == windows_rtt(text::lines(output)),
{
    let lines = text::lines(output);
    let said = all_said(lines);
    assert forall|j: int| 0 <= j < i implies (#[trigger] said[j]).posix is None
        && said[j].windows is None by {
        assert(!is_statistics(lines[j]));
    }
    assert forall|j: int| i <= j < said.len() implies (#[trigger] said[j]).rtt_ms is None by {
        assert(posix_rtt(text::trim(lines[j], Class::Space)) is None);
    }
    lemma_known_behind(said, i);
    lemma_no_times_from(said, i);
}

/// The figures of a summary: nothing lost prints as zero, a share of counters
/// as its whole percents, and any other as the printers give it without
/// decimals; times print where there are any, each in its place, with three
/// decimals where the maximum is below ten and with one where it is not.
pub proof fn law_figures_of_a_summary<
    L: Fn(&Number, &Number) -> String,
    T: Fn(&Number, u8) -> String,
>(summary: PingSummary, print_loss: L, print_number: T, figures: PingFigures)
    requires
        are_printed(summary, print_loss, print_number, figures),
    ensures
        match summary.loss_pct {
            Loss::Zero => figures.loss@ == seq!['0'],
            Loss::Share { lost, transmitted } => figures.loss@ == number::decimal(
                share::whole_percent(lost as nat, transmitted as nat),
            ),
            Loss::Printed(share) => call_ensures(print_number, (&share, 0u8), figures.loss),
            Loss::Counted { transmitted, received } => call_ensures(
                print_loss,
                (&transmitted, &received),
                figures.loss,
            ),
        },
        match summary.rtt_ms {
            Some((min, avg, max)) => {
                let decimals: u8 = if value::below_ten(max@) {
                    3
                } else {
                    1
                };
                figures.rtt matches Some(times) && call_ensures(
                    print_number,
                    (&min, decimals),
                    times.min,
                ) && call_ensures(print_number, (&avg, decimals), times.avg) && call_ensures(
                    print_number,
                    (&max, decimals),
                    times.max,
                )
            },
            None => figures.rtt is None,
        },
{
    reveal_strlit("0");
    assert("0"@ =~= seq!['0']);
}

/// Where the output holds a summary, its card stands first: it is named after
/// the host and holds the verdict, and has a second line for the times.
pub proof fn law_summary_card_stands_first<
    L: Fn(&Number, &Number) -> String,
    T: Fn(&Number, u8) -> String,
>(
    cards: Seq<CardModel>,
    host: Seq<char>,
    output: Seq<char>,
    print_loss: L,
    print_number: T,
    messages: Messages,
)
    requires
        are_cards(cards, host, output, print_loss, print_number, messages),
        summary_of(output) is Some,
    ensures
        cards.len() == 2,
        cards[0].title == host,
        cards[0].status == Some(verdict_of(summary_of(output)->0)),
        cards[0].lines.len() == if summary_of(output)->0.rtt_ms is Some {
            2int
        } else {
            1
        },
{
}

/// The numbers that pieces begin with: those of two lists of pieces follow
/// each other, and one piece gives its number or nothing.
pub proof fn law_readings(a: Seq<Seq<char>>, b: Seq<Seq<char>>, piece: Seq<char>, class: Class)
    ensures
        readings(a + b, class) == readings(a, class) + readings(b, class),
        readings(seq![piece], class) == match reading(piece, class) {
            Some(n) => seq![n],
            None => Seq::empty(),
        },
{
    lemma_readings_of_both(a, b, class);
    assert(seq![piece].drop_last() == Seq::<Seq<char>>::empty());
    assert(readings(seq![piece].drop_last(), class) == Seq::<Seq<char>>::empty());
    if reading(piece, class) is Some {
        assert(readings(seq![piece], class) == seq![reading(piece, class)->0]);
    }
}

/// A piece behind an equals sign: white space, digits, and what follows them.
pub struct Piece {
    pub blank: Seq<char>,
    pub digits: Seq<char>,
    pub rest: Seq<char>,
}

impl Piece {
    /// The piece as a text.
    pub open spec fn joined(self) -> Seq<char> {
        self.blank + self.digits + self.rest
    }

    /// White space, digits, and something that begins with no digit and holds
    /// neither an equals sign nor an opening bracket.
    pub open spec fn is_counter(self) -> bool {
        &&& forall|i: int| 0 <= i < self.blank.len() ==> text::is_space(#[trigger] self.blank[i])
        &&& number::is_digits(self.digits)
        &&& is_label(self.rest)
        &&& self.rest.len() > 0 ==> !text::is_digit(self.rest[0])
    }
}

/// Digits behind white space are the number that a piece begins with.
proof fn lemma_reading_of_piece(piece: Piece, more: Seq<char>)
    requires
        piece.is_counter(),
        (piece.rest + more).len() > 0 ==> !text::is_digit((piece.rest + more)[0]),
    ensures
        reading(piece.joined() + more, Class::Digit) == Some(piece.digits),
{
    let b = piece.blank;
    let n = piece.digits;
    let rest = piece.rest + more;
    let s = piece.joined() + more;
    let bare = n + rest;
    assert(s == b + bare);
    assert(text::is_digit(n[0]));
    assert forall|i: int| 0 <= i < b.len() implies Class::Space.has(#[trigger] s[i]) by {
        assert(s[i] == b[i]);
    }
    assert(s[b.len() as int] == n[0]);
    text::lemma_leading_is(s, Class::Space, b.len() as int);
    assert(s.skip(b.len() as int) == bare);
    assert forall|i: int| 0 <= i < n.len() implies Class::Digit.has(#[trigger] bare[i]) by {
        assert(text::is_digit(n[i]));
    }
    if rest.len() > 0 {
        assert(bare[n.len() as int] == rest[0]);
    }
    text::lemma_leading_is(bare, Class::Digit, n.len() as int);
    assert(bare.take(n.len() as int) == n);
    lemma_digits_are_a_number(n);
}

/// A piece holds no equals sign and no opening bracket.
proof fn lemma_piece_is_label(piece: Piece)
    requires
        piece.is_counter(),
    ensures
        is_label(piece.joined()),
{
    let b = piece.blank;
    lemma_digits_are_a_number(piece.digits);
    assert forall|i: int| 0 <= i < b.len() implies #[trigger] b[i] != '=' && b[i] != '(' by {
        assert(text::is_space(b[i]));
    }
    lemma_without(b, piece.digits, '=');
    lemma_without(b, piece.digits, '(');
    lemma_without(b + piece.digits, piece.rest, '=');
    lemma_without(b + piece.digits, piece.rest, '(');
}

/// A Windows counters line in its most general shape: a label, three pieces
/// that begin with counters, and a share in brackets, with any white space.
pub open spec fn counters_line_text(
    label: Seq<char>,
    pieces: (Piece, Piece, Piece),
    share: Piece,
    tail: Seq<char>,
) -> Seq<char> {
    label + seq!['='] + pieces.0.joined() + seq!['='] + pieces.1.joined() + seq!['=']
        + pieces.2.joined() + seq!['('] + share.joined() + seq!['%'] + tail
}

/// White space around digits is left out of a share.
proof fn lemma_share_with_blanks(head: Seq<char>, share: Piece, tail: Seq<char>)
    requires
        !head.contains('('),
        share.is_counter(),
        forall|i: int| 0 <= i < share.rest.len() ==> text::is_space(#[trigger] share.rest[i]),
    ensures
        percent_in_brackets(head + seq!['('] + (share.joined() + seq!['%'] + tail)) == Some(
            share.digits,
        ),
{
    reveal_strlit("(");
    reveal_strlit("%");
    assert("("@ == seq!['(']);
    assert("%"@ == seq!['%']);
    let inner = share.joined();
    lemma_piece_is_label(share);
    lemma_digits_are_a_number(share.digits);
    assert forall|i: int| 0 <= i < share.blank.len() implies #[trigger] share.blank[i] != '%' by {
        assert(text::is_space(share.blank[i]));
    }
    assert forall|i: int| 0 <= i < share.rest.len() implies #[trigger] share.rest[i] != '%' by {
        assert(text::is_space(share.rest[i]));
    }
    lemma_without(share.blank, share.digits, '%');
    lemma_without(share.blank + share.digits, share.rest, '%');
    let x = inner + seq!['%'];
    lemma_without(inner, seq!['%'], '(');
    text::lemma_split_head(head, '(', x + tail);
    let (cut, more) = lemma_first_piece(x, '(', tail);
    let part = inner + seq!['%'] + cut;
    let parts = text::split(head + seq!['('] + (x + tail), seq!['(']);
    assert(parts == seq![head] + (seq![part] + more));
    assert(parts[1] == part);
    text::lemma_find_char(inner, '%', cut);
    assert(part.take(inner.len() as int) == inner);
    assert(text::is_digit(share.digits[0]));
    assert(text::is_digit(share.digits[share.digits.len() - 1]));
    text::law_trim(share.blank, share.digits, share.rest, Class::Space);
    assert(text::contains(part, "%"@)) by {
        assert(part.subrange(inner.len() as int, inner.len() as int + 1) == seq!['%']);
        assert(text::occurs_at(part, seq!['%'], inner.len() as int));
    }
}

proof fn lemma_pieces_assigned(
    label: Seq<char>,
    pieces: (Piece, Piece, Piece),
    tail: Seq<char>,
)
    requires
        is_label(label),
        pieces.0.is_counter() && pieces.1.is_counter() && pieces.2.is_counter(),
    ensures
        ({
            let eq = seq!['='];
            let line = label + eq + (pieces.0.joined() + eq + (pieces.1.joined() + eq + (
            pieces.2.joined() + seq!['('] + tail)));
            let numbers = assigned(line, Class::Digit);
            numbers.len() >= 3 && numbers[0] == pieces.0.digits && numbers[1] == pieces.1.digits
        }),
{
    let eq = seq!['='];
    assert("="@ == eq) by {
        reveal_strlit("=");
    }
    let p1 = pieces.0.joined();
    let p2 = pieces.1.joined();
    let x = pieces.2.joined() + seq!['('];
    let line = label + eq + (p1 + eq + (p2 + eq + (x + tail)));
    lemma_piece_is_label(pieces.0);
    lemma_piece_is_label(pieces.1);
    lemma_piece_is_label(pieces.2);
    lemma_without(pieces.2.joined(), seq!['('], '=');
    lemma_three_cuts(label, p1, p2, x + tail);
    let (head, more) = lemma_first_piece(x, '=', tail);
    let p3 = x + head;
    assert(text::split(line, eq).skip(1) =~= seq![p1, p2, p3] + more);
    let none = Seq::<char>::empty();
    assert(p1 + none == p1 && pieces.0.rest + none == pieces.0.rest);
    assert(p2 + none == p2 && pieces.1.rest + none == pieces.1.rest);
    lemma_reading_of_piece(pieces.0, none);
    lemma_reading_of_piece(pieces.1, none);
    let after = seq!['('] + head;
    assert(p3 =~= pieces.2.joined() + after);
    assert((pieces.2.rest + after)[0] == if pieces.2.rest.len() > 0 {
        pieces.2.rest[0]
    } else {
        '('
    });
    lemma_reading_of_piece(pieces.2, after);
    lemma_three_readings(
        (p1, p2, p3),
        (pieces.0.digits, pieces.1.digits, pieces.2.digits),
        more,
        Class::Digit,
    );
}

/// A Windows counters line is read by position: the first two of its counters
/// are the packets transmitted and received, and the share is the number in
/// its brackets, whatever the labels and the white space between them are.
#[verifier::spinoff_prover]
pub proof fn law_counters_by_position(
    label: Seq<char>,
    pieces: (Piece, Piece, Piece),
    share: Piece,
    tail: Seq<char>,
)
    requires
        is_label(label),
        pieces.0.is_counter() && pieces.1.is_counter() && pieces.2.is_counter(),
        share.is_counter(),
        forall|i: int| 0 <= i < share.rest.len() ==> text::is_space(#[trigger] share.rest[i]),
    ensures
        windows_stats(counters_line_text(label, pieces, share, tail)) == Some(
            PingModel {
                transmitted: value::count_of(pieces.0.digits),
                received: value::count_of(pieces.1.digits),
                loss_pct: LossModel::Printed(share.digits),
                rtt_ms: None,
            },
        ),
{
    let eq = seq!['='];
    let line = counters_line_text(label, pieces, share, tail);
    let p1 = pieces.0.joined();
    let p2 = pieces.1.joined();
    let p3 = pieces.2.joined();
    let inner = share.joined() + seq!['%'] + tail;
    assert("="@ == eq && "%"@ == seq!['%']) by {
        reveal_strlit("=");
        reveal_strlit("%");
    }
    assert(line =~= label + eq + (p1 + eq + (p2 + eq + (p3 + seq!['('] + inner))));
    lemma_pieces_assigned(label, pieces, inner);
    let head = label + eq + p1 + eq + p2 + eq + p3;
    lemma_piece_is_label(pieces.0);
    lemma_piece_is_label(pieces.1);
    lemma_piece_is_label(pieces.2);
    lemma_without(label, eq, '(');
    lemma_without(label + eq, p1, '(');
    lemma_without(label + eq + p1, eq, '(');
    lemma_without(label + eq + p1 + eq, p2, '(');
    lemma_without(label + eq + p1 + eq + p2, eq, '(');
    lemma_without(label + eq + p1 + eq + p2 + eq, p3, '(');
    assert(line =~= head + seq!['('] + inner);
    lemma_share_with_blanks(head, share, tail);
    assert(line[head.len() as int + 1 + share.joined().len()] == '%');
    text::lemma_contains_char(line, '%');
    assert(line[label.len() as int] == '=');
    text::lemma_contains_char(line, '=');
}

/// Where the tool printed no share, it is zero if and only if the number of
/// packets transmitted is; and what is not a pair of counters is handed on as
/// the two numbers that were printed.
pub proof fn law_loss_of_other_numbers(transmitted: Seq<char>, received: Seq<char>)
    ensures
        loss_between(transmitted, received) is Zero <==> zero::is_zero(transmitted),
        !zero::is_zero(transmitted) && (number::parse_u32(transmitted) is None
            || number::parse_u32(received) is None) ==> loss_between(transmitted, received) == (
        LossModel::Counted { transmitted, received }),
        number::parse_u32(transmitted) matches Some(sent) && number::parse_u32(received) matches Some(
            back,
        ) && !zero::is_zero(transmitted) && (back > sent || sent > 16_777_216) ==> loss_between(
            transmitted,
            received,
        ) == (LossModel::Counted { transmitted, received }),
        loss_between(transmitted, received) matches LossModel::Share { lost, transmitted: sent }
            ==> number::parse_u32(transmitted) == Some(sent) && number::parse_u32(received) == Some(
            (sent - lost) as u32,
        ) && lost <= sent,
{
}

/// A statistics line without the word `packets`.
pub open spec fn short_text(sent: Seq<char>, back: Seq<char>, rest: Seq<char>) -> Seq<char> {
    sent + " transmitted, "@ + back + " received"@ + rest
}

/// The number of packets received on a line without the word `packets`.
proof fn lemma_short_received(t: Seq<char>, r: Seq<char>, rest: Seq<char>)
    requires
        number::is_digits(t),
        number::is_digits(r),
        is_plain(rest),
    ensures
        !text::contains(short_text(t, r, rest), "packets received"@),
        number_ahead(short_text(t, r, rest), "received"@) == Some(r),
        !text::contains(short_text(t, r, rest), "packet loss"@),
{
    let head = t + " transmitted, "@ + r + seq![' '];
    let line = short_text(t, r, rest);
    let marker = "received"@;
    assert(line =~= head + marker + rest) by {
        reveal_strlit(" received");
        reveal_strlit("received");
    }
    assert(marker.len() == 8 && marker[5] == 'v' && !marker.contains('l') && forall|i: int|
        0 <= i < 5 ==> #[trigger] marker[i] != 'v') by {
        reveal_strlit("received");
    }
    assert("packet loss"@.len() == 11 && "packet loss"@[7] == 'l') by {
        reveal_strlit("packet loss");
    }
    lemma_short_head(t, r);
    lemma_no_longer_marker(head, rest);
    lemma_digits_are_a_number(r);
    lemma_number_found(head, r, marker, rest, 5);
    lemma_without(head, marker, 'l');
    lemma_without(head + marker, rest, 'l');
    lemma_not_found(line, "packet loss"@, 7);
}

/// The number of packets transmitted on a line without the word `packets`.
proof fn lemma_short_transmitted(t: Seq<char>, r: Seq<char>, rest: Seq<char>)
    requires
        number::is_digits(t),
        number::is_digits(r),
        !rest.contains('m'),
    ensures
        !text::contains(short_text(t, r, rest), "packets transmitted"@),
        number_ahead(short_text(t, r, rest), "transmitted"@) == Some(t),
        text::contains(short_text(t, r, rest), "transmitted"@),
{
    let tail = r + " received"@ + rest;
    assert(short_text(t, r, rest) =~= t + " transmitted, "@ + tail);
    assert(!" received"@.contains('m')) by {
        reveal_strlit(" received");
    }
    lemma_digits_are_a_number(r);
    lemma_without(r, " received"@, 'm');
    lemma_without(r + " received"@, rest, 'm');
    lemma_short_sent(t, tail);
    lemma_no_packets(t, tail);
}

/// A statistics line that leaves out the word `packets` says how many packets
/// were transmitted and received all the same.
#[verifier::spinoff_prover]
pub proof fn law_statistics_without_packets(sent: u32, back: u32, rest: Seq<char>)
    requires
        back <= sent <= share::EXACT,
        is_plain(rest),
        !rest.contains('m'),
    ensures
        posix_stats(
            short_text(number::decimal(sent as nat), number::decimal(back as nat), rest),
        ) == Some(
            PingModel {
                transmitted: sent as nat,
                received: back as nat,
                loss_pct: if sent == 0 {
                    LossModel::Zero
                } else {
                    LossModel::Share { lost: (sent - back) as u32, transmitted: sent }
                },
                rtt_ms: None,
            },
        ),
{
    let t = number::decimal(sent as nat);
    let r = number::decimal(back as nat);
    number::lemma_decimal(sent as nat);
    number::lemma_decimal(back as nat);
    value::law_plain_counter_reads_back(sent as nat);
    value::law_plain_counter_reads_back(back as nat);
    law_loss_of_counters(sent, back);
    lemma_short_received(t, r, rest);
    lemma_short_transmitted(t, r, rest);
    lemma_absent_marker(short_text(t, r, rest), "packets received"@);
    lemma_absent_marker(short_text(t, r, rest), "packets transmitted"@);
    lemma_absent_marker(short_text(t, r, rest), "packet loss"@);
}

/// No number stands ahead of a marker that is not there.
proof fn lemma_absent_marker(line: Seq<char>, marker: Seq<char>)
    requires
        !text::contains(line, marker),
    ensures
        number_ahead(line, marker) is None,
        percent_ahead(line, marker) is None,
{
}

/// What stands before the packets received, in the shorter spelling.
proof fn lemma_short_head(t: Seq<char>, r: Seq<char>)
    requires
        number::is_digits(t),
        number::is_digits(r),
    ensures
        ({
            let head = t + " transmitted, "@ + r + seq![' '];
            &&& !head.contains('v')
            &&& !head.contains('l')
            &&& text::words(head).len() > 0
            &&& text::words(head).last() == r
            &&& head.len() >= 2
            &&& text::is_digit(head[head.len() - 2])
        }),
{
    let lit = " transmitted, "@;
    assert(!lit.contains('v') && !lit.contains('l') && lit.len() == 14 && lit.last() == ' ') by {
        reveal_strlit(" transmitted, ");
    }
    lemma_digits_are_a_number(t);
    lemma_digits_are_a_number(r);
    lemma_without(t, lit, 'v');
    lemma_without(t, lit, 'l');
    lemma_without(t + lit, r, 'v');
    lemma_without(t + lit, r, 'l');
    lemma_without(t + lit + r, seq![' '], 'v');
    lemma_without(t + lit + r, seq![' '], 'l');
    lemma_digits_are_a_word(r);
    let x = (t + lit).drop_last();
    lemma_last_word(x, r);
    let head = t + lit + r + seq![' '];
    assert(x + seq![' '] + r + seq![' '] =~= head);
    assert(head[head.len() - 2] == r[r.len() - 1]);
    assert(text::is_digit(r[r.len() - 1]));
}

/// The number in front of the packets transmitted, in the shorter spelling.
proof fn lemma_short_sent(t: Seq<char>, rest: Seq<char>)
    requires
        number::is_digits(t),
    ensures
        number_ahead(t + " transmitted, "@ + rest, "transmitted"@) == Some(t),
        text::contains(t + " transmitted, "@ + rest, "transmitted"@),
{
    let line = t + " transmitted, "@ + rest;
    let pat = "transmitted"@;
    let a = t + seq![' '];
    let b = seq![',', ' '] + rest;
    lemma_digits_are_a_number(t);
    lemma_digits_are_a_word(t);
    lemma_without(t, seq![' '], 't');
    assert(line =~= a + pat + b) by {
        reveal_strlit("transmitted");
        reveal_strlit(" transmitted, ");
    }
    assert(pat[0] == 't' && pat.len() == 11) by {
        reveal_strlit("transmitted");
    }
    text::law_replace_first(a, pat, b, Seq::empty());
    lemma_last_word(a, t);
    let n = a.len() as int;
    assert(line.subrange(n, n + 11) == pat);
    assert(text::occurs_at(line, pat, n));
}

/// The longer marker for the packets transmitted does not stand there.
proof fn lemma_no_packets(t: Seq<char>, rest: Seq<char>)
    requires
        number::is_digits(t),
        !rest.contains('m'),
    ensures
        !text::contains(t + " transmitted, "@ + rest, "packets transmitted"@),
{
    let lit = " transmitted, "@;
    let long = "packets transmitted"@;
    let line = t + lit + rest;
    let n = t.len() as int;
    assert(long.len() == 19 && long[13] == 'm' && long[6] == 's') by {
        reveal_strlit("packets transmitted");
    }
    assert(lit.len() == 14 && forall|i: int|
        0 <= i < 14 && i != 6 ==> #[trigger] lit[i] != 'm') by {
        reveal_strlit(" transmitted, ");
    }
    if text::contains(line, long) {
        let i = choose|i: int| text::occurs_at(line, long, i);
        let window = line.subrange(i, i + 19);
        assert(window[13] == line[i + 13] && window[6] == line[i + 6]);
        let k = i + 13;
        if k < n {
            assert(line[k] == t[k]);
            assert(text::is_digit(t[k]));
        } else if k >= n + 14 {
            assert(line[k] == rest[k - n - 14]);
            assert(rest.contains(rest[k - n - 14]));
        } else {
            assert(line[k] == lit[k - n]);
        }
        assert(k == n + 6);
        assert(line[i + 6] == t[n - 1]);
        assert(text::is_digit(t[n - 1]));
    }
}

/// A piece of a Windows timing line: white space, a number of digits and dots,
/// white space, the unit, and what follows.
pub struct TimePiece {
    pub blank: Seq<char>,
    pub number: Seq<char>,
    pub gap: Seq<char>,
    pub rest: Seq<char>,
}

impl TimePiece {
    /// The piece as a text.
    pub open spec fn joined(self) -> Seq<char> {
        self.blank + self.number + self.gap + seq!['m', 's'] + self.rest
    }

    /// A number with its unit, and nothing behind it that holds an equals sign.
    pub open spec fn is_time(self) -> bool {
        &&& forall|i: int| 0 <= i < self.blank.len() ==> text::is_space(#[trigger] self.blank[i])
        &&& forall|i: int| 0 <= i < self.gap.len() ==> text::is_space(#[trigger] self.gap[i])
        &&& is_share(self.number)
        &&& !self.rest.contains('=')
    }
}

/// A piece with its unit gives its number, carries the unit and holds no
/// equals sign.
proof fn lemma_time_piece(piece: TimePiece)
    requires
        piece.is_time(),
    ensures
        reading(piece.joined(), Class::DigitOrDot) == Some(piece.number),
        carries_unit(piece.joined()),
        !piece.joined().contains('='),
{
    reveal_strlit("ms");
    assert("ms"@ == seq!['m', 's']);
    let b = piece.blank;
    let n = piece.number;
    let unit = seq!['m', 's'] + piece.rest;
    let behind = piece.gap + unit;
    let bare = n + behind;
    let s = piece.joined();
    assert(s =~= b + bare);
    number::lemma_number_ends(n);
    assert(text::is_digit(n[0]) || n[0] == '.');
    assert forall|i: int| 0 <= i < b.len() implies Class::Space.has(#[trigger] s[i]) by {
        assert(s[i] == b[i]);
    }
    assert(s[b.len() as int] == n[0]);
    text::lemma_leading_is(s, Class::Space, b.len() as int);
    assert(s.skip(b.len() as int) =~= bare);
    assert forall|i: int| 0 <= i < n.len() implies Class::DigitOrDot.has(#[trigger] bare[i]) by {
        assert(bare[i] == n[i]);
    }
    assert(bare[n.len() as int] == behind[0]);
    assert(!Class::DigitOrDot.has(behind[0])) by {
        if piece.gap.len() > 0 {
            assert(behind[0] == piece.gap[0]);
            assert(text::is_space(piece.gap[0]));
        } else {
            assert(behind[0] == 'm');
        }
    }
    text::lemma_leading_is(bare, Class::DigitOrDot, n.len() as int);
    assert(bare.take(n.len() as int) =~= n);
    assert(bare.skip(n.len() as int) =~= behind);
    assert forall|i: int| 0 <= i < piece.gap.len() implies Class::Space.has(
        #[trigger] behind[i],
    ) by {
        assert(behind[i] == piece.gap[i]);
    }
    assert(behind[piece.gap.len() as int] == 'm');
    text::lemma_leading_is(behind, Class::Space, piece.gap.len() as int);
    assert(behind.skip(piece.gap.len() as int) =~= unit);
    assert(unit.subrange(0, 2) == "ms"@);
    lemma_time_piece_without(piece);
}

proof fn lemma_time_piece_without(piece: TimePiece)
    requires
        piece.is_time(),
    ensures
        !piece.joined().contains('='),
{
    let b = piece.blank;
    let n = piece.number;
    let g = piece.gap;
    assert forall|i: int| 0 <= i < b.len() implies #[trigger] b[i] != '=' by {
        assert(text::is_space(b[i]));
    }
    assert forall|i: int| 0 <= i < g.len() implies #[trigger] g[i] != '=' by {
        assert(text::is_space(g[i]));
    }
    assert forall|i: int| 0 <= i < n.len() implies #[trigger] n[i] != '=' by {
        assert(text::is_digit(n[i]) || n[i] == '.');
    }
    lemma_without(b, n, '=');
    lemma_without(b + n, g, '=');
    lemma_without(b + n + g, seq!['m', 's'], '=');
    lemma_without(b + n + g + seq!['m', 's'], piece.rest, '=');
}

/// A Windows timing line is read by position: a label and three pieces that
/// begin with a number and its unit give the first number as the minimum, the
/// third as the average and the second as the maximum, whatever the labels
/// and the white space between them are.
#[verifier::spinoff_prover]
pub proof fn law_times_by_position(label: Seq<char>, pieces: (TimePiece, TimePiece, TimePiece))
    requires
        !label.contains('='),
        pieces.0.is_time() && pieces.1.is_time() && pieces.2.is_time(),
    ensures
        windows_rtt_line(
            label + seq!['='] + pieces.0.joined() + seq!['='] + pieces.1.joined() + seq!['=']
                + pieces.2.joined(),
        ) == Some((pieces.0.number, pieces.2.number, pieces.1.number)),
{
    let eq = seq!['='];
    let u = seq!['m', 's'];
    let p1 = pieces.0.joined();
    let p2 = pieces.1.joined();
    let p3 = pieces.2.joined();
    let line = label + eq + p1 + eq + p2 + eq + p3;
    assert("="@ == eq && "ms"@ == u) by {
        reveal_strlit("=");
        reveal_strlit("ms");
    }
    lemma_time_piece(pieces.0);
    lemma_time_piece(pieces.1);
    lemma_time_piece(pieces.2);
    assert(line =~= label + eq + (p1 + eq + (p2 + eq + p3)));
    lemma_three_cuts(label, p1, p2, p3);
    text::lemma_split_whole(p3, '=');
    assert(text::split(line, eq).skip(1) =~= seq![p1, p2, p3]);
    lemma_exactly_three_readings(
        (p1, p2, p3),
        (pieces.0.number, pieces.1.number, pieces.2.number),
        Class::DigitOrDot,
    );
    lemma_units_of_pieces(label, pieces);
}

proof fn lemma_units_of_pieces(label: Seq<char>, pieces: (TimePiece, TimePiece, TimePiece))
    ensures
        text::count(
            label + seq!['='] + pieces.0.joined() + seq!['='] + pieces.1.joined() + seq!['=']
                + pieces.2.joined(),
            seq!['m', 's'],
        ) >= 3,
{
    let eq = seq!['='];
    let u = seq!['m', 's'];
    let x1 = label + eq + (pieces.0.blank + pieces.0.number + pieces.0.gap);
    let x2 = pieces.0.rest + eq + (pieces.1.blank + pieces.1.number + pieces.1.gap);
    let x3 = pieces.1.rest + eq + (pieces.2.blank + pieces.2.number + pieces.2.gap);
    lemma_three_units(x1, x2, x3, pieces.2.rest);
    assert(label + eq + pieces.0.joined() + eq + pieces.1.joined() + eq + pieces.2.joined() =~= x1
        + u + (x2 + u + (x3 + u + pieces.2.rest)));
}

/// Three parts between slashes are the parts of a timing line, with white
/// space among them.
proof fn lemma_timing_pieces(a: Seq<char>, b: Seq<char>, c: Seq<char>, rest: Seq<char>)
    requires
        a.len() > 0 && c.len() > 0,
        !text::is_space(a[0]) && !text::is_space(c.last()),
        !a.contains('/') && !b.contains('/') && !c.contains('/'),
        rest.len() == 0 || rest[0] == '/',
    ensures
        ({
            let core = a + seq!['/'] + (b + seq!['/'] + c);
            let parts = timing_parts(seq![' '] + core + rest + seq![' ', 'm', 's']);
            parts.len() >= 3 && parts[0] == a && parts[1] == b && parts[2] == c
        }),
{
    let core = a + seq!['/'] + (b + seq!['/'] + c);
    assert(core[0] == a[0] && core.last() == c[c.len() - 1]);
    lemma_timing_core(core, rest);
    let kept = if rest.len() == 0 {
        rest
    } else {
        text::trim_end(rest, Class::Space)
    };
    assert(core + kept =~= a + seq!['/'] + (b + seq!['/'] + (c + kept)));
    lemma_three_parts(a, b, c, kept);
}

/// A figure with white space around it.
proof fn lemma_figure_in_blanks(before: Seq<char>, figure: Seq<char>, behind: Seq<char>)
    requires
        is_figure(figure),
        forall|i: int| 0 <= i < before.len() ==> text::is_space(#[trigger] before[i]),
        forall|i: int| 0 <= i < behind.len() ==> text::is_space(#[trigger] behind[i]),
    ensures
        text::trim(before + figure + behind, Class::Space) == figure,
        !(before + figure + behind).contains('/'),
        !(before + figure + behind).contains('='),
{
    assert(!text::is_space(figure[0]) && !text::is_space(figure[figure.len() - 1]));
    text::law_trim(before, figure, behind, Class::Space);
    assert forall|i: int| 0 <= i < before.len() implies #[trigger] before[i] != '/' && before[i]
        != '=' by {
        assert(text::is_space(before[i]));
    }
    assert forall|i: int| 0 <= i < behind.len() implies #[trigger] behind[i] != '/' && behind[i]
        != '=' by {
        assert(text::is_space(behind[i]));
    }
    lemma_without(before, figure, '/');
    lemma_without(before + figure, behind, '/');
    lemma_without(before, figure, '=');
    lemma_without(before + figure, behind, '=');
}

/// White space around the figures of a timing line does not matter.
#[verifier::spinoff_prover]
pub proof fn law_times_with_blanks(
    label: Seq<char>,
    figures: (Seq<char>, Seq<char>, Seq<char>),
    blanks: (Seq<char>, Seq<char>, Seq<char>, Seq<char>),
    rest: Seq<char>,
)
    requires
        text::contains(label, "min/avg/max"@),
        is_figure(figures.0) && is_figure(figures.1) && is_figure(figures.2),
        forall|i: int| 0 <= i < blanks.0.len() ==> text::is_space(#[trigger] blanks.0[i]),
        forall|i: int| 0 <= i < blanks.1.len() ==> text::is_space(#[trigger] blanks.1[i]),
        forall|i: int| 0 <= i < blanks.2.len() ==> text::is_space(#[trigger] blanks.2[i]),
        forall|i: int| 0 <= i < blanks.3.len() ==> text::is_space(#[trigger] blanks.3[i]),
        rest.len() == 0 || rest[0] == '/',
        !rest.contains('='),
    ensures
        posix_rtt(
            label + "= "@ + (figures.0 + blanks.0) + "/"@ + (blanks.1 + figures.1 + blanks.2) + "/"@
                + (blanks.3 + figures.2) + rest + " ms"@,
        ) == Some(figures),
{
    let none = Seq::<char>::empty();
    let a = figures.0 + blanks.0;
    let b = blanks.1 + figures.1 + blanks.2;
    let c = blanks.3 + figures.2;
    let line = label + "= "@ + a + "/"@ + b + "/"@ + c + rest + " ms"@;
    let core = a + seq!['/'] + (b + seq!['/'] + c);
    let values = seq![' '] + core + rest + seq![' ', 'm', 's'];
    assert(line =~= label + seq!['='] + values) by {
        reveal_strlit("= ");
        reveal_strlit("/");
        reveal_strlit(" ms");
    }
    lemma_figure_in_blanks(none, figures.0, blanks.0);
    lemma_figure_in_blanks(blanks.1, figures.1, blanks.2);
    lemma_figure_in_blanks(blanks.3, figures.2, none);
    assert(none + figures.0 + blanks.0 =~= a);
    assert(blanks.3 + figures.2 + none =~= c);
    lemma_timing_values(a, b, c, rest);
    lemma_behind_label(label, values);
    assert(line =~= label + (seq!['='] + values));
    lemma_contains_front(label, seq!['='] + values, "min/avg/max"@);
    assert(a[0] == figures.0[0] && c.last() == figures.2[figures.2.len() - 1]);
    assert(!text::is_space(figures.0[0]));
    assert(!text::is_space(figures.2[figures.2.len() - 1]));
    lemma_timing_pieces(a, b, c, rest);
}

/// Whether a text ends in a word with a blank behind it.
pub open spec fn ends_in_word(s: Seq<char>, word: Seq<char>) -> bool {
    text::is_word(word) && (s == word + seq![' '] || exists|x: Seq<char>|
        s == #[trigger] (x + seq![' '] + word + seq![' ']))
}

/// Whether a marker stands behind a text and not before.
pub open spec fn first_stands_behind(line: Seq<char>, a: Seq<char>, marker: Seq<char>) -> bool {
    &&& 0 < marker.len() <= line.len() - a.len()
    &&& line.take(a.len() as int) == a
    &&& line.subrange(a.len() as int, (a.len() + marker.len()) as int) == marker
    &&& forall|i: int|
        0 <= i < a.len() ==> #[trigger] line.subrange(i, i + marker.len()) != marker
}

/// The word in front of a marker is the one in front of the first place where
/// the marker stands, whatever follows.
pub proof fn law_word_before_a_marker(
    line: Seq<char>,
    a: Seq<char>,
    marker: Seq<char>,
    word: Seq<char>,
)
    requires
        first_stands_behind(line, a, marker),
        ends_in_word(a, word),
    ensures
        word_before(line, marker) == Some(word),
        number_ahead(line, marker) == if number::is_number(word) {
            Some(word)
        } else {
            None
        },
{
    let n = a.len() as int;
    assert(text::occurs_at(line, marker, n));
    assert forall|i: int| 0 <= i < n implies !text::occurs_at(line, marker, i) by {
        assert(line.subrange(i, i + marker.len()) != marker);
    }
    text::lemma_find_is(line, marker, n);
    let x = choose|x: Seq<char>| a == #[trigger] (x + seq![' '] + word + seq![' ']);
    lemma_last_word(x, word);
    assert(text::before(line, marker) == a);
}

/// A statistics line counts what the numbers in front of its markers count,
/// however they are spelled, and leaves a share that is not printed to them.
pub proof fn law_statistics_of_any_numbers(
    line: Seq<char>,
    sent: (Seq<char>, Seq<char>),
    back: (Seq<char>, Seq<char>),
)
    requires
        first_stands_behind(line, sent.0, "packets transmitted"@),
        ends_in_word(sent.0, sent.1),
        number::is_number(sent.1),
        first_stands_behind(line, back.0, "packets received"@),
        ends_in_word(back.0, back.1),
        number::is_number(back.1),
        forall|i: int|
            0 <= i <= line.len() - 11 ==> #[trigger] line.subrange(i, i + 11) != "packet loss"@,
    ensures
        posix_stats(line) == Some(
            PingModel {
                transmitted: value::count_of(sent.1),
                received: value::count_of(back.1),
                loss_pct: loss_between(sent.1, back.1),
                rtt_ms: None,
            },
        ),
{
    let long = "packets transmitted"@;
    let short = "transmitted"@;
    law_word_before_a_marker(line, sent.0, long, sent.1);
    law_word_before_a_marker(line, back.0, "packets received"@, back.1);
    assert("packet loss"@.len() == 11) by {
        reveal_strlit("packet loss");
    }
    assert(!text::contains(line, "packet loss"@)) by {
        if text::contains(line, "packet loss"@) {
            let i = choose|i: int| text::occurs_at(line, "packet loss"@, i);
            assert(line.subrange(i, i + 11) == "packet loss"@);
        }
    }
    lemma_absent_marker(line, "packet loss"@);
    assert(long.len() == 19 && short.len() == 11 && long.subrange(8, 19) =~= short) by {
        reveal_strlit("packets transmitted");
        reveal_strlit("transmitted");
    }
    let n = sent.0.len() as int;
    assert(line.subrange(n + 8, n + 19) =~= line.subrange(n, n + 19).subrange(8, 19));
    assert(text::occurs_at(line, short, n + 8));
}

} // verus!
