//! DNSBL (blocklist) lookups: is this address listed as a spam source.
//!
//! A blocklist query is an ordinary DNS query with the address reversed into
//! the zone's name: an answer means listed, NXDOMAIN means clean, and the TXT
//! record next to it carries the reason.
//!
//! Verdicts are best-effort by construction. Every zone here is a public
//! mirror with its own usage policy, and several of them rate-limit or refuse
//! queries from open resolvers (Spamhaus in particular answers `127.255.255.x`
//! instead of a listing when it declines). That is why a zone that does not
//! answer, or declines to, is reported as "no answer" rather than as listed or
//! folded into "clean".

use crate::address;
use crate::address::IpAddress;
use crate::card;
use crate::card::{CardModel, CardStatus, Messages, NetToolCard};
use crate::number;
use crate::text;
use vstd::prelude::*;

verus! {

/// One blocklist.
#[derive(Clone, Copy, Debug, PartialEq, Eq)]
pub struct Zone {
    pub name: &'static str,
    /// Whether the zone publishes IPv6 listings. The ones that do not are
    /// skipped for a v6 target rather than queried: a guaranteed NXDOMAIN
    /// would read as a clean verdict the zone never gave.
    pub ipv6: bool,
}

/// The number of zones queried.
pub const ZONE_COUNT: usize = 8;

/// The names of the zones queried, and whether each publishes IPv6 listings.
pub open spec fn zone_list() -> Seq<(Seq<char>, bool)> {
    seq![
        ("zen.spamhaus.org"@, true),
        ("bl.spamcop.net"@, false),
        ("b.barracudacentral.org"@, false),
        ("dnsbl.sorbs.net"@, false),
        ("psbl.surriel.com"@, false),
        ("bl.blocklist.de"@, true),
        ("dnsbl-1.uceprotect.net"@, false),
        ("all.s5h.net"@, false),
    ]
}

/// The zones queried, all public and all widely used by mail operators.
/// Deliberately a fixed list rather than a setting: a user-supplied zone is a
/// DNS query built from typed text, and the value of the panel is that these
/// are the ones whose answers mean something.
pub fn zones() -> (res: [Zone; ZONE_COUNT])
    ensures
        res@.len() == ZONE_COUNT,
        forall|i: int|
            0 <= i < res@.len() ==> (#[trigger] res@[i]).name@ == zone_list()[i].0 && res@[i].ipv6
                == zone_list()[i].1,
{
    [
        Zone { name: "zen.spamhaus.org", ipv6: true },
        Zone { name: "bl.spamcop.net", ipv6: false },
        Zone { name: "b.barracudacentral.org", ipv6: false },
        Zone { name: "dnsbl.sorbs.net", ipv6: false },
        Zone { name: "psbl.surriel.com", ipv6: false },
        Zone { name: "bl.blocklist.de", ipv6: true },
        Zone { name: "dnsbl-1.uceprotect.net", ipv6: false },
        Zone { name: "all.s5h.net", ipv6: false },
    ]
}

/// What one zone said.
#[derive(Clone, Debug, PartialEq, Eq)]
pub enum Verdict {
    Listed { codes: Vec<String>, reasons: Vec<String> },
    Clean,
    NoAnswer(String),
    Skipped,
}

/// What one zone said, as texts.
pub enum VerdictModel {
    Listed { codes: Seq<Seq<char>>, reasons: Seq<Seq<char>> },
    Clean,
    NoAnswer(Seq<char>),
    Skipped,
}

impl View for Verdict {
    type V = VerdictModel;

    open spec fn view(&self) -> VerdictModel {
        match self {
            Verdict::Listed { codes, reasons } => VerdictModel::Listed {
                codes: text::strings(codes@),
                reasons: text::strings(reasons@),
            },
            Verdict::Clean => VerdictModel::Clean,
            Verdict::NoAnswer(why) => VerdictModel::NoAnswer(why@),
            Verdict::Skipped => VerdictModel::Skipped,
        }
    }
}

/// The kinds of DNS records that a blocklist answers with.
#[derive(Clone, Copy, Debug, PartialEq, Eq, Structural)]
pub enum RecordKind {
    A,
    Txt,
    Other,
}

/// One record of a DNS answer. The data of a TXT record is its text, without
/// quotes around it.
#[derive(Clone, Debug, PartialEq, Eq)]
pub struct Answer {
    pub kind: RecordKind,
    pub data: String,
}

/// What became of a DNS lookup.
#[derive(Clone, Debug, PartialEq, Eq)]
pub enum Lookup {
    Answered(Vec<Answer>),
    Failed {
        /// The name does not exist.
        nx_domain: bool,
        /// The name has no records of the kind asked for.
        no_records_found: bool,
        message: String,
    },
}

/// Where the query of one zone stands.
#[derive(Clone, Debug, PartialEq, Eq)]
pub enum ZoneQuery {
    /// The A records of the name are to be looked up.
    AskA { name: String },
    /// The name is listed under the codes; its TXT records are to be looked
    /// up for the reasons.
    AskTxt { name: String, codes: Vec<String> },
    /// The zone has said what it says.
    Done(Verdict),
}

/// Where the query of one zone stands, as texts.
pub enum QueryModel {
    AskA { name: Seq<char> },
    AskTxt { name: Seq<char>, codes: Seq<Seq<char>> },
    Done(VerdictModel),
}

impl View for ZoneQuery {
    type V = QueryModel;

    open spec fn view(&self) -> QueryModel {
        match self {
            ZoneQuery::AskA { name } => QueryModel::AskA { name: name@ },
            ZoneQuery::AskTxt { name, codes } => QueryModel::AskTxt {
                name: name@,
                codes: text::strings(codes@),
            },
            ZoneQuery::Done(verdict) => QueryModel::Done(verdict@),
        }
    }
}

/// The name a blocklist is asked about; `None` for an IPv6 address and a zone
/// without IPv6 listings.
pub open spec fn name_of(ip: IpAddress, zone: Seq<char>, zone_has_ipv6: bool) -> Option<Seq<char>> {
    if ip is V6 && !zone_has_ipv6 {
        None
    } else {
        Some(text::join(address::labels_of(ip), "."@) + "."@ + zone)
    }
}

/// The name a blocklist is asked about: the address reversed, then the zone.
/// `None` when the target is IPv6 and the zone does not publish v6 data, so
/// the caller reports a skip instead of a verdict.
pub fn query_name(ip: &IpAddress, zone: &str, zone_has_ipv6: bool) -> (res: Option<String>)
    ensures
        match res {
            Some(name) => name_of(*ip, zone@, zone_has_ipv6) == Some(name@),
            None => name_of(*ip, zone@, zone_has_ipv6) is None,
        },
{
    let v6 = match ip {
        IpAddress::V6(_) => true,
        IpAddress::V4(_) => false,
    };
    if v6 && !zone_has_ipv6 {
        return None;
    }
    let mut name = address::reversed_labels(ip);
    name.append(".");
    name.append(zone);
    Some(name)
}

/// The data of the records of one kind, in order.
pub open spec fn data_of(answers: Seq<Answer>, kind: RecordKind) -> Seq<Seq<char>>
    decreases answers.len(),
{
    if answers.len() == 0 {
        Seq::empty()
    } else {
        let earlier = data_of(answers.drop_last(), kind);
        if answers.last().kind == kind {
            earlier.push(answers.last().data@)
        } else {
            earlier
        }
    }
}

/// Picks the data of the records of one kind.
fn pick(answers: &Vec<Answer>, kind: RecordKind) -> (res: Vec<String>)
    ensures
        text::strings(res@) == data_of(answers@, kind),
{
    let mut res: Vec<String> = Vec::new();
    let mut i: usize = 0;
    assert(text::strings(res@) == data_of(answers@.take(0), kind));
    while i < answers.len()
        invariant
            i <= answers@.len(),
            text::strings(res@) == data_of(answers@.take(i as int), kind),
        decreases answers@.len() - i,
    {
        let ghost earlier = text::strings(res@);
        assert(answers@.take(i + 1).drop_last() == answers@.take(i as int));
        if answers[i].kind == kind {
            res.push(answers[i].data.clone());
            assert(text::strings(res@) == earlier.push(answers@[i as int].data@));
        }
        i = i + 1;
    }
    assert(answers@.take(answers@.len() as int) == answers@);
    res
}

/// Where the query of a zone begins: with a lookup, or skipped.
pub open spec fn first_step(ip: IpAddress, zone: Seq<char>, zone_has_ipv6: bool) -> QueryModel {
    match name_of(ip, zone, zone_has_ipv6) {
        Some(name) => QueryModel::AskA { name },
        None => QueryModel::Done(VerdictModel::Skipped),
    }
}

/// Whether a code is one that a zone answers with instead of a listing when it
/// declines the query: an address in `127.255.255.0/24`.
pub open spec fn declines(code: Seq<char>) -> bool {
    code.len() > 12 && code.take(12) == "127.255.255."@
}

/// Whether every code says that the zone declines.
pub open spec fn all_decline(codes: Seq<Seq<char>>) -> bool {
    forall|i: int| 0 <= i < codes.len() ==> declines(#[trigger] codes[i])
}

/// Whether every code says that the zone declines.
fn declined(codes: &Vec<String>) -> (res: bool)
    ensures
        res == all_decline(text::strings(codes@)),
{
    let prefix: Vec<char> = text::chars_of("127.255.255.");
    let ghost model = text::strings(codes@);
    proof {
        reveal_strlit("127.255.255.");
    }
    let mut i: usize = 0;
    while i < codes.len()
        invariant
            i <= codes@.len(),
            model == text::strings(codes@),
            prefix@ == "127.255.255."@,
            prefix@.len() == 12,
            forall|j: int| 0 <= j < i ==> declines(#[trigger] model[j]),
        decreases codes@.len() - i,
    {
        let code: Vec<char> = text::chars_of(codes[i].as_str());
        assert(model[i as int] == code@);
        assert(code@.len() >= 12 ==> code@.subrange(0, 12) == code@.take(12));
        if code.len() <= 12 || !text::occurs(&code, &prefix, 0) {
            return false;
        }
        i = i + 1;
    }
    true
}

/// Where the query of a zone goes on. An answer with A records means listed,
/// unless all of them say that the zone declines, and the TXT records beside
/// them say why; a name without any is clean; a zone that declines, and any
/// other failure of the first lookup, is no answer.
pub open spec fn next_step(query: QueryModel, reply: Lookup) -> QueryModel {
    match query {
        QueryModel::AskA { name } => match reply {
            Lookup::Answered(answers) => {
                let codes = data_of(answers@, RecordKind::A);
                if codes.len() == 0 {
                    QueryModel::Done(VerdictModel::Clean)
                } else if all_decline(codes) {
                    QueryModel::Done(VerdictModel::NoAnswer(text::join(codes, ", "@)))
                } else {
                    QueryModel::AskTxt { name, codes }
                }
            },
            Lookup::Failed { nx_domain, no_records_found, message } => if nx_domain
                || no_records_found {
                QueryModel::Done(VerdictModel::Clean)
            } else {
                QueryModel::Done(VerdictModel::NoAnswer(message@))
            },
        },
        QueryModel::AskTxt { name, codes } => {
            let reasons = match reply {
                Lookup::Answered(answers) => data_of(answers@, RecordKind::Txt),
                Lookup::Failed { .. } => Seq::empty(),
            };
            QueryModel::Done(VerdictModel::Listed { codes, reasons })
        },
        QueryModel::Done(verdict) => QueryModel::Done(verdict),
    }
}

impl ZoneQuery {
    /// Begins the query of a zone.
    pub fn start(ip: &IpAddress, zone: &Zone) -> (res: ZoneQuery)
        ensures
            res@ == first_step(*ip, zone.name@, zone.ipv6),
    {
        match query_name(ip, zone.name, zone.ipv6) {
            Some(name) => ZoneQuery::AskA { name },
            None => ZoneQuery::Done(Verdict::Skipped),
        }
    }

    /// Takes the reply to the lookup that the query asks for.
    pub fn step(self, reply: Lookup) -> (res: ZoneQuery)
        ensures
            res@ == next_step(self@, reply),
    {
        match self {
            ZoneQuery::AskA { name } => match reply {
                Lookup::Answered(answers) => {
                    let codes = pick(&answers, RecordKind::A);
                    assert(codes@.len() == text::strings(codes@).len());
                    if codes.len() == 0 {
                        ZoneQuery::Done(Verdict::Clean)
                    } else if declined(&codes) {
                        // A code that stands for a refusal comes instead of a
                        // listing, so it is no verdict on the address.
                        ZoneQuery::Done(Verdict::NoAnswer(text::joined(&codes, ", ")))
                    } else {
                        // The TXT beside the A record is where the zone
                        // explains itself, which is the half a user can act
                        // on.
                        ZoneQuery::AskTxt { name, codes }
                    }
                },
                Lookup::Failed { nx_domain, no_records_found, message } => {
                    if nx_domain || no_records_found {
                        ZoneQuery::Done(Verdict::Clean)
                    } else {
                        ZoneQuery::Done(Verdict::NoAnswer(message))
                    }
                },
            },
            ZoneQuery::AskTxt { name, codes } => {
                let reasons = match reply {
                    Lookup::Answered(answers) => pick(&answers, RecordKind::Txt),
                    Lookup::Failed { .. } => Vec::new(),
                };
                assert(reply is Failed ==> text::strings(reasons@) == Seq::<Seq<char>>::empty());
                ZoneQuery::Done(Verdict::Listed { codes, reasons })
            },
            ZoneQuery::Done(verdict) => ZoneQuery::Done(verdict),
        }
    }
}

/// A zone and what it said.
#[derive(Clone, Debug, PartialEq, Eq)]
pub struct ZoneVerdict {
    pub zone: Zone,
    pub verdict: Verdict,
}

/// The query of the zone at an index of the list, before any reply.
pub open spec fn query_at(ip: IpAddress, i: int) -> QueryModel {
    first_step(ip, zone_list()[i].0, zone_list()[i].1)
}

/// Where the lookup of an address in all zones stands, as texts.
pub struct ProbeModel {
    pub ip: IpAddress,
    /// What the zones said so far, in the order of the list.
    pub verdicts: Seq<VerdictModel>,
    /// The query of the next zone; `None` once every zone has its verdict.
    pub query: Option<QueryModel>,
}

/// The lookup with the query of the next zone. A query that has come to its
/// end gives the zone its verdict and makes room for the zone behind it.
pub open spec fn settle(
    ip: IpAddress,
    verdicts: Seq<VerdictModel>,
    query: QueryModel,
) -> ProbeModel
    decreases ZONE_COUNT - verdicts.len(),
{
    match query {
        QueryModel::Done(verdict) => {
            let verdicts = verdicts.push(verdict);
            if verdicts.len() < ZONE_COUNT {
                settle(ip, verdicts, query_at(ip, verdicts.len() as int))
            } else {
                ProbeModel { ip, verdicts, query: None }
            }
        },
        _ => ProbeModel { ip, verdicts, query: Some(query) },
    }
}

/// The lookup of an address before any reply.
pub open spec fn first_probe(ip: IpAddress) -> ProbeModel {
    settle(ip, Seq::empty(), query_at(ip, 0))
}

/// The lookup of an address after one more reply.
pub open spec fn next_probe(probe: ProbeModel, reply: Lookup) -> ProbeModel {
    match probe.query {
        Some(query) => settle(probe.ip, probe.verdicts, next_step(query, reply)),
        None => probe,
    }
}

/// The name to look up next, and the kind of records to ask for.
pub open spec fn question_of(query: Option<QueryModel>) -> Option<(Seq<char>, RecordKind)> {
    match query {
        Some(QueryModel::AskA { name }) => Some((name, RecordKind::A)),
        Some(QueryModel::AskTxt { name, .. }) => Some((name, RecordKind::Txt)),
        _ => None,
    }
}

/// Whether the verdicts are those of the first zones of the list, in order.
pub open spec fn in_zone_order(verdicts: Seq<ZoneVerdict>) -> bool {
    forall|i: int|
        0 <= i < verdicts.len() ==> (#[trigger] verdicts[i]).zone.name@ == zone_list()[i].0
            && verdicts[i].zone.ipv6 == zone_list()[i].1
}

/// What the zones said, without their names.
pub open spec fn said(verdicts: Seq<ZoneVerdict>) -> Seq<VerdictModel> {
    Seq::new(verdicts.len(), |i: int| verdicts[i].verdict@)
}

/// A DNS lookup to make.
#[derive(Clone, Debug, PartialEq, Eq)]
pub struct Question {
    pub name: String,
    pub kind: RecordKind,
}

/// Where the lookup of an address in all zones stands: the zones are queried
/// one by one, in the order of the list.
#[derive(Debug)]
pub struct Probe {
    ip: IpAddress,
    verdicts: Vec<ZoneVerdict>,
    query: Option<ZoneQuery>,
}

impl View for Probe {
    type V = ProbeModel;

    closed spec fn view(&self) -> ProbeModel {
        ProbeModel {
            ip: self.ip,
            verdicts: said(self.verdicts@),
            query: match self.query {
                Some(query) => Some(query@),
                None => None,
            },
        }
    }
}

impl Probe {
    /// The verdicts stand in the order of the list, and there is a query to
    /// go on with unless every zone has its verdict.
    #[verifier::type_invariant]
    spec fn wf(self) -> bool {
        &&& in_zone_order(self.verdicts@)
        &&& self.verdicts@.len() <= ZONE_COUNT
        &&& self.query is Some <==> self.verdicts@.len() < ZONE_COUNT
        &&& self.query matches Some(query) ==> !(query is Done)
    }

    /// The lookup with the query of the next zone.
    fn settled(ip: IpAddress, verdicts: Vec<ZoneVerdict>, query: ZoneQuery) -> (res: Probe)
        requires
            in_zone_order(verdicts@),
            verdicts@.len() < ZONE_COUNT,
        ensures
            res@ == settle(ip, said(verdicts@), query@),
        decreases ZONE_COUNT - verdicts@.len(),
    {
        match query {
            ZoneQuery::Done(verdict) => {
                let zones = zones();
                let mut verdicts = verdicts;
                let ghost earlier = said(verdicts@);
                let zone: Zone = zones[verdicts.len()];
                verdicts.push(ZoneVerdict { zone, verdict });
                assert(said(verdicts@) == earlier.push(verdict@));
                if verdicts.len() < ZONE_COUNT {
                    let next = ZoneQuery::start(&ip, &zones[verdicts.len()]);
                    Probe::settled(ip, verdicts, next)
                } else {
                    Probe { ip, verdicts, query: None }
                }
            },
            _ => Probe { ip, verdicts, query: Some(query) },
        }
    }

    /// Begins the lookup of an address.
    pub fn start(ip: IpAddress) -> (res: Probe)
        ensures
            res@ == first_probe(ip),
    {
        let zones = zones();
        let verdicts: Vec<ZoneVerdict> = Vec::new();
        let query = ZoneQuery::start(&ip, &zones[0]);
        assert(said(verdicts@) == Seq::<VerdictModel>::empty());
        Probe::settled(ip, verdicts, query)
    }

    /// The lookup to make next; `None` once every zone has its verdict.
    pub fn question(&self) -> (res: Option<Question>)
        ensures
            match res {
                Some(question) => question_of(self@.query) == Some((question.name@, question.kind)),
                None => question_of(self@.query) is None,
            },
            res is None <==> self@.verdicts.len() == ZONE_COUNT,
    {
        proof {
            use_type_invariant(self);
        }
        match &self.query {
            Some(ZoneQuery::AskA { name }) => {
                Some(Question { name: name.clone(), kind: RecordKind::A })
            },
            Some(ZoneQuery::AskTxt { name, .. }) => {
                Some(Question { name: name.clone(), kind: RecordKind::Txt })
            },
            _ => None,
        }
    }

    /// Takes the reply to the lookup that was to be made next.
    pub fn step(self, reply: Lookup) -> (res: Probe)
        ensures
            res@ == next_probe(self@, reply),
    {
        proof {
            use_type_invariant(&self);
        }
        let Probe { ip, verdicts, query } = self;
        match query {
            Some(query) => Probe::settled(ip, verdicts, query.step(reply)),
            None => Probe { ip, verdicts, query: None },
        }
    }

    /// What the zones said so far.
    pub fn verdicts(&self) -> (res: &Vec<ZoneVerdict>)
        ensures
            said(res@) == self@.verdicts,
            in_zone_order(res@),
    {
        proof {
            use_type_invariant(self);
        }
        &self.verdicts
    }
}

/// What the zones said, by the card that it stands on.
pub struct Report {
    pub listed: Seq<Seq<char>>,
    pub clean: Seq<Seq<char>>,
    pub quiet: Seq<Seq<char>>,
}

/// The reasons of a listing, indented.
pub open spec fn indented(reasons: Seq<Seq<char>>) -> Seq<Seq<char>> {
    Seq::new(reasons.len(), |i: int| "    "@ + reasons[i])
}

/// The report with one more verdict. A zone that was skipped or did not
/// answer is quiet, never clean.
pub open spec fn with_verdict(
    report: Report,
    zone: Seq<char>,
    verdict: VerdictModel,
    messages: Messages,
) -> Report {
    match verdict {
        VerdictModel::Listed { codes, reasons } => Report {
            listed: report.listed.push(zone + "   "@ + text::join(codes, ", "@)) + indented(
                reasons,
            ),
            ..report
        },
        VerdictModel::Clean => Report { clean: report.clean.push(zone), ..report },
        VerdictModel::NoAnswer(why) => Report {
            quiet: report.quiet.push(zone + "   "@ + why),
            ..report
        },
        VerdictModel::Skipped => Report {
            quiet: report.quiet.push(zone + "   "@ + messages.net_rbl_no_ipv6@),
            ..report
        },
    }
}

/// The report on a list of verdicts.
pub open spec fn report_of(verdicts: Seq<ZoneVerdict>, messages: Messages) -> Report
    decreases verdicts.len(),
{
    if verdicts.len() == 0 {
        Report { listed: Seq::empty(), clean: Seq::empty(), quiet: Seq::empty() }
    } else {
        with_verdict(
            report_of(verdicts.drop_last(), messages),
            verdicts.last().zone.name@,
            verdicts.last().verdict@,
            messages,
        )
    }
}

/// The card that says which address was looked up.
pub open spec fn target_model(host: Seq<char>, ip: Seq<char>, messages: Messages) -> CardModel {
    CardModel::new(messages.net_target@, seq![host + " -> "@ + ip])
}

/// The card with the verdict on the address.
pub open spec fn outcome_model(report: Report, messages: Messages) -> CardModel {
    if report.listed.len() == 0 {
        let share = number::decimal(report.clean.len()) + " / "@ + number::decimal(
            ZONE_COUNT as nat,
        );
        CardModel::new(messages.net_rbl_clean@, seq![share]).status(CardStatus::Good)
    } else {
        CardModel::new(messages.net_rbl_listed@, report.listed).status(CardStatus::Bad)
    }
}

/// The card of the clean zones, if there are any.
pub open spec fn clean_models(report: Report, messages: Messages) -> Seq<CardModel> {
    if report.clean.len() == 0 {
        Seq::empty()
    } else {
        seq![CardModel::new(messages.net_rbl_clean_zones@, report.clean)]
    }
}

/// The card of the quiet zones, if there are any.
pub open spec fn quiet_models(report: Report, messages: Messages) -> Seq<CardModel> {
    if report.quiet.len() == 0 {
        Seq::empty()
    } else {
        seq![
            CardModel::new(messages.net_rbl_no_answer@, report.quiet).status(CardStatus::Warn),
        ]
    }
}

/// The cards of a blocklist lookup.
pub open spec fn cards_model(
    host: Seq<char>,
    ip: Seq<char>,
    report: Report,
    messages: Messages,
) -> Seq<CardModel> {
    seq![target_model(host, ip, messages), outcome_model(report, messages)] + clean_models(
        report,
        messages,
    ) + quiet_models(report, messages)
}

/// The zone and what is said of it, on one line.
fn zone_line(zone: &str, rest: &str) -> (res: String)
    ensures
        res@ == zone@ + "   "@ + rest@,
{
    let mut res = zone.to_owned();
    res.append("   ");
    res.append(rest);
    res
}

/// Appends the reasons, indented.
fn push_reasons(lines: &mut Vec<String>, reasons: &Vec<String>)
    ensures
        text::strings(final(lines)@) == text::strings(old(lines)@) + indented(
            text::strings(reasons@),
        ),
{
    let ghost start = text::strings(lines@);
    let ghost all = indented(text::strings(reasons@));
    let mut i: usize = 0;
    while i < reasons.len()
        invariant
            i <= reasons@.len(),
            all == indented(text::strings(reasons@)),
            text::strings(lines@) == start + all.take(i as int),
        decreases reasons@.len() - i,
    {
        let ghost earlier = text::strings(lines@);
        let mut line = "    ".to_owned();
        line.append(reasons[i].as_str());
        assert(line@ == all[i as int]);
        lines.push(line);
        assert(text::strings(lines@) == earlier.push(line@));
        i = i + 1;
    }
    assert(all.take(all.len() as int) == all);
}

/// The cards of a blocklist lookup: which address was asked about, whether
/// any zone lists it, and what the others said. `ip` is the address as it
/// prints.
pub fn rbl_cards(
    host: &str,
    ip: &str,
    verdicts: &Vec<ZoneVerdict>,
    messages: &Messages,
) -> (res: Vec<NetToolCard>)
    ensures
        card::cards_of(res@) == cards_model(
            host@,
            ip@,
            report_of(verdicts@, *messages),
            *messages,
        ),
{
    let mut listed: Vec<String> = Vec::new();
    let mut clean: Vec<String> = Vec::new();
    let mut quiet: Vec<String> = Vec::new();
    let mut i: usize = 0;
    proof {
        let start = report_of(verdicts@.take(0), *messages);
        assert(text::strings(listed@) == start.listed);
        assert(text::strings(clean@) == start.clean);
        assert(text::strings(quiet@) == start.quiet);
    }
    while i < verdicts.len()
        invariant
            i <= verdicts@.len(),
            text::strings(listed@) == report_of(verdicts@.take(i as int), *messages).listed,
            text::strings(clean@) == report_of(verdicts@.take(i as int), *messages).clean,
            text::strings(quiet@) == report_of(verdicts@.take(i as int), *messages).quiet,
        decreases verdicts@.len() - i,
    {
        let ghost before = report_of(verdicts@.take(i as int), *messages);
        let ghost after = report_of(verdicts@.take(i + 1), *messages);
        assert(verdicts@.take(i + 1).drop_last() == verdicts@.take(i as int));
        let zone: &str = verdicts[i].zone.name;
        match &verdicts[i].verdict {
            Verdict::Listed { codes, reasons } => {
                let line = zone_line(zone, text::joined(codes, ", ").as_str());
                listed.push(line);
                assert(text::strings(listed@) == before.listed.push(line@));
                push_reasons(&mut listed, reasons);
            },
            Verdict::Clean => {
                clean.push(zone.to_owned());
                assert(text::strings(clean@) == after.clean);
            },
            Verdict::NoAnswer(why) => {
                quiet.push(zone_line(zone, why.as_str()));
                assert(text::strings(quiet@) == after.quiet);
            },
            Verdict::Skipped => {
                quiet.push(zone_line(zone, messages.net_rbl_no_ipv6.as_str()));
                assert(text::strings(quiet@) == after.quiet);
            },
        }
        i = i + 1;
    }
    assert(verdicts@.take(verdicts@.len() as int) == verdicts@);
    let ghost report = report_of(verdicts@, *messages);
    let mut cards: Vec<NetToolCard> = Vec::new();

    let mut line = host.to_owned();
    line.append(" -> ");
    line.append(ip);
    let mut lines: Vec<String> = Vec::new();
    lines.push(line);
    assert(text::strings(lines@) == target_model(host@, ip@, *messages).lines);
    cards.push(NetToolCard::new(messages.net_target.clone(), lines));

    if listed.len() == 0 {
        let mut share = number::print_u64(clean.len() as u64);
        share.append(" / ");
        share.append(number::print_u64(ZONE_COUNT as u64).as_str());
        let mut lines: Vec<String> = Vec::new();
        lines.push(share);
        assert(text::strings(lines@) == outcome_model(report, *messages).lines);
        let outcome = NetToolCard::new(messages.net_rbl_clean.clone(), lines);
        cards.push(outcome.status(CardStatus::Good));
    } else {
        let outcome = NetToolCard::new(messages.net_rbl_listed.clone(), listed);
        cards.push(outcome.status(CardStatus::Bad));
    }
    if clean.len() > 0 {
        cards.push(NetToolCard::new(messages.net_rbl_clean_zones.clone(), clean));
    }
    if quiet.len() > 0 {
        let silent = NetToolCard::new(messages.net_rbl_no_answer.clone(), quiet);
        cards.push(silent.status(CardStatus::Warn));
    }
    assert(card::cards_of(cards@) == cards_model(host@, ip@, report, *messages));
    cards
}

/// No zone is queried twice.
pub proof fn law_zones_are_distinct()
    ensures
        forall|i: int, j: int|
            0 <= i < j < zone_list().len() ==> (#[trigger] zone_list()[i]).0 != (
            #[trigger] zone_list()[j]).0,
{
    reveal_strlit("zen.spamhaus.org");
    reveal_strlit("bl.spamcop.net");
    reveal_strlit("b.barracudacentral.org");
    reveal_strlit("dnsbl.sorbs.net");
    reveal_strlit("psbl.surriel.com");
    reveal_strlit("bl.blocklist.de");
    reveal_strlit("dnsbl-1.uceprotect.net");
    reveal_strlit("all.s5h.net");
    let list = zone_list();
    // Names of the same length differ in their first character.
    assert(list[0].0.len() == 16 && list[4].0.len() == 16 && list[0].0[0] == 'z' && list[4].0[0]
        == 'p');
    assert(list[3].0.len() == 15 && list[5].0.len() == 15 && list[3].0[0] == 'd' && list[5].0[0]
        == 'b');
    assert(list[2].0.len() == 22 && list[6].0.len() == 22 && list[2].0[0] == 'b' && list[6].0[0]
        == 'd');
    assert(list[1].0.len() == 14 && list[7].0.len() == 11);
}

/// A zone is asked unless the address is IPv6 and the zone publishes no IPv6
/// listings.
pub proof fn law_skipped_only_without_ipv6(ip: IpAddress, zone: Seq<char>, zone_has_ipv6: bool)
    ensures
        name_of(ip, zone, zone_has_ipv6) is None <==> ip is V6 && !zone_has_ipv6,
        first_step(ip, zone, zone_has_ipv6) == QueryModel::Done(VerdictModel::Skipped) <==> ip is V6
            && !zone_has_ipv6,
{
}

/// The name that a zone is asked about tells the address: two addresses are
/// asked about under one name only if they are the same.
pub proof fn law_name_tells_address(a: IpAddress, b: IpAddress, zone: Seq<char>, zone_has_ipv6: bool)
    requires
        name_of(a, zone, zone_has_ipv6) is Some,
        name_of(a, zone, zone_has_ipv6) == name_of(b, zone, zone_has_ipv6),
    ensures
        a == b,
{
    reveal_strlit(".");
    let x = text::join(address::labels_of(a), "."@);
    let y = text::join(address::labels_of(b), "."@);
    let end = "."@ + zone;
    assert(x + "."@ + zone == x + end);
    assert(y + "."@ + zone == y + end);
    assert(x.len() == y.len());
    assert((x + end).take(x.len() as int) == x);
    assert((y + end).take(y.len() as int) == y);
    address::lemma_labels_split(a);
    address::lemma_labels_split(b);
    address::lemma_labels_tell(a, b);
}

/// A zone is asked at most twice.
pub proof fn law_two_lookups_suffice(
    ip: IpAddress,
    zone: Seq<char>,
    zone_has_ipv6: bool,
    first: Lookup,
    second: Lookup,
)
    ensures
        next_step(next_step(first_step(ip, zone, zone_has_ipv6), first), second) is Done,
{
}

/// A zone lists the address if and only if its first reply holds A records
/// that do not all say that it declines, and then under all of their data.
pub proof fn law_listed_by_a_records(name: Seq<char>, first: Lookup, second: Lookup)
    ensures
        ({
            let end = next_step(next_step(QueryModel::AskA { name }, first), second);
            &&& end matches QueryModel::Done(VerdictModel::Listed { codes, .. }) ==> first matches
                Lookup::Answered(answers) && codes == data_of(answers@, RecordKind::A)
                && codes.len() > 0 && !all_decline(codes)
            &&& (first matches Lookup::Answered(answers) && data_of(
                answers@,
                RecordKind::A,
            ).len() > 0 && !all_decline(data_of(answers@, RecordKind::A))) ==> end matches
                QueryModel::Done(VerdictModel::Listed { .. })
        }),
{
}

/// A zone whose A records all say that it declines has given no answer: it is
/// neither listed nor clean, whatever else it is asked.
pub proof fn law_declining_is_no_answer(name: Seq<char>, answers: Vec<Answer>, second: Lookup)
    requires
        data_of(answers@, RecordKind::A).len() > 0,
        all_decline(data_of(answers@, RecordKind::A)),
    ensures
        ({
            let end = next_step(QueryModel::AskA { name }, Lookup::Answered(answers));
            let why = text::join(data_of(answers@, RecordKind::A), ", "@);
            &&& end == QueryModel::Done(VerdictModel::NoAnswer(why))
            &&& next_step(end, second) == end
        }),
{
}

/// Of the records of a zone only its A records say whether it declines: where
/// there is one and each of them does, the zone has given no answer.
pub proof fn law_declining_records(name: Seq<char>, answers: Vec<Answer>, second: Lookup)
    requires
        exists|i: int| 0 <= i < answers@.len() && (#[trigger] answers@[i]).kind == RecordKind::A,
        forall|i: int|
            0 <= i < answers@.len() && (#[trigger] answers@[i]).kind == RecordKind::A ==> declines(
                answers@[i].data@,
            ),
    ensures
        ({
            let end = next_step(QueryModel::AskA { name }, Lookup::Answered(answers));
            let why = text::join(data_of(answers@, RecordKind::A), ", "@);
            &&& end == QueryModel::Done(VerdictModel::NoAnswer(why))
            &&& next_step(end, second) == end
        }),
{
    lemma_no_data(answers@, RecordKind::A);
    lemma_all_data_decline(answers@);
}

proof fn lemma_all_data_decline(answers: Seq<Answer>)
    requires
        forall|i: int|
            0 <= i < answers.len() && (#[trigger] answers[i]).kind == RecordKind::A ==> declines(
                answers[i].data@,
            ),
    ensures
        all_decline(data_of(answers, RecordKind::A)),
    decreases answers.len(),
{
    if answers.len() > 0 {
        let shorter = answers.drop_last();
        assert(forall|i: int| 0 <= i < shorter.len() ==> #[trigger] shorter[i] == answers[i]);
        lemma_all_data_decline(shorter);
        let last = answers[answers.len() - 1];
        assert(last.kind == RecordKind::A ==> declines(last.data@));
    }
}

/// A zone whose first lookup failed for another reason than that there is
/// nothing to find has given no answer: it is neither clean nor listed.
pub proof fn law_failure_is_no_answer(name: Seq<char>, message: String)
    ensures
        next_step(
            QueryModel::AskA { name },
            Lookup::Failed { nx_domain: false, no_records_found: false, message },
        ) == QueryModel::Done(VerdictModel::NoAnswer(message@)),
{
}

/// The lookup of an address after some replies.
pub open spec fn probe_after(ip: IpAddress, replies: Seq<Lookup>) -> ProbeModel
    decreases replies.len(),
{
    if replies.len() == 0 {
        first_probe(ip)
    } else {
        next_probe(probe_after(ip, replies.drop_last()), replies.last())
    }
}

/// Whether the verdicts and the query are such as replies can lead to: no
/// zone is skipped but for want of IPv6 listings, and the next zone is asked
/// under its own name.
pub open spec fn is_consistent(probe: ProbeModel) -> bool {
    &&& probe.verdicts.len() <= ZONE_COUNT
    &&& probe.query is Some <==> probe.verdicts.len() < ZONE_COUNT
    &&& forall|i: int|
        0 <= i < probe.verdicts.len() ==> ((#[trigger] probe.verdicts[i]) is Skipped <==> probe.ip
            is V6 && !zone_list()[i].1)
    &&& probe.query is Some ==> (question_of(probe.query) matches Some((name, _)) && name_of(
        probe.ip,
        zone_list()[probe.verdicts.len() as int].0,
        zone_list()[probe.verdicts.len() as int].1,
    ) == Some(name))
}

/// How many lookups there still may be.
pub open spec fn lookups_left(probe: ProbeModel) -> int {
    2 * (ZONE_COUNT - probe.verdicts.len()) - if probe.query matches Some(query) && query is AskTxt {
        1int
    } else {
        0int
    }
}

/// Settling keeps the order of the zones and uses up no more lookups.
proof fn lemma_settle(ip: IpAddress, verdicts: Seq<VerdictModel>, query: QueryModel)
    requires
        verdicts.len() < ZONE_COUNT,
        forall|i: int|
            0 <= i < verdicts.len() ==> ((#[trigger] verdicts[i]) is Skipped <==> ip is V6
                && !zone_list()[i].1),
        query matches QueryModel::Done(verdict) ==> (verdict is Skipped <==> ip is V6
            && !zone_list()[verdicts.len() as int].1),
        !(query is Done) ==> (question_of(Some(query)) matches Some((name, _)) && name_of(
            ip,
            zone_list()[verdicts.len() as int].0,
            zone_list()[verdicts.len() as int].1,
        ) == Some(name)),
    ensures
        is_consistent(settle(ip, verdicts, query)),
        settle(ip, verdicts, query).ip == ip,
        lookups_left(settle(ip, verdicts, query)) <= 2 * (ZONE_COUNT - verdicts.len()),
        query is AskTxt ==> lookups_left(settle(ip, verdicts, query)) < 2 * (ZONE_COUNT
            - verdicts.len()),
        query is Done ==> lookups_left(settle(ip, verdicts, query)) <= 2 * (ZONE_COUNT
            - verdicts.len()) - 2,
    decreases ZONE_COUNT - verdicts.len(),
{
    if let QueryModel::Done(verdict) = query {
        let longer = verdicts.push(verdict);
        if longer.len() < ZONE_COUNT {
            lemma_settle(ip, longer, query_at(ip, longer.len() as int));
        }
    }
}

/// Whatever the zones reply, their verdicts come in the order of the list; a
/// zone is skipped if and only if the address is IPv6 and the zone publishes
/// no IPv6 listings, and otherwise asked under the name that it has for the
/// address.
pub proof fn law_zones_are_asked_in_turn(ip: IpAddress, replies: Seq<Lookup>)
    ensures
        probe_after(ip, replies).ip == ip,
        is_consistent(probe_after(ip, replies)),
    decreases replies.len(),
{
    if replies.len() == 0 {
        lemma_settle(ip, Seq::empty(), query_at(ip, 0));
    } else {
        let before = probe_after(ip, replies.drop_last());
        law_zones_are_asked_in_turn(ip, replies.drop_last());
        if let Some(query) = before.query {
            lemma_settle(ip, before.verdicts, next_step(query, replies.last()));
        }
    }
}

/// The lookup of an address comes to its end: after two replies for each
/// zone at the latest every zone has its verdict, and there is nothing more
/// to ask.
pub proof fn law_every_zone_has_its_verdict(ip: IpAddress, replies: Seq<Lookup>)
    ensures
        lookups_left(probe_after(ip, replies)) <= 0 || lookups_left(probe_after(ip, replies))
            <= 2 * ZONE_COUNT - replies.len(),
        replies.len() >= 2 * ZONE_COUNT ==> probe_after(ip, replies).verdicts.len() == ZONE_COUNT
            && question_of(probe_after(ip, replies).query) is None,
    decreases replies.len(),
{
    if replies.len() == 0 {
        lemma_settle(ip, Seq::empty(), query_at(ip, 0));
    } else {
        let before = probe_after(ip, replies.drop_last());
        law_every_zone_has_its_verdict(ip, replies.drop_last());
        law_zones_are_asked_in_turn(ip, replies.drop_last());
        if let Some(query) = before.query {
            lemma_settle(ip, before.verdicts, next_step(query, replies.last()));
        }
    }
    law_zones_are_asked_in_turn(ip, replies);
}

/// How many of the verdicts say that the zone is clean.
pub open spec fn clean_count(verdicts: Seq<ZoneVerdict>) -> nat
    decreases verdicts.len(),
{
    if verdicts.len() == 0 {
        0
    } else if verdicts.last().verdict is Clean {
        clean_count(verdicts.drop_last()) + 1
    } else {
        clean_count(verdicts.drop_last())
    }
}

/// How many of the verdicts say that the zone was skipped or did not answer.
pub open spec fn quiet_count(verdicts: Seq<ZoneVerdict>) -> nat
    decreases verdicts.len(),
{
    if verdicts.len() == 0 {
        0
    } else if verdicts.last().verdict is NoAnswer || verdicts.last().verdict is Skipped {
        quiet_count(verdicts.drop_last()) + 1
    } else {
        quiet_count(verdicts.drop_last())
    }
}

/// A zone that was skipped or did not answer is not counted as clean, and
/// each zone that is clean or quiet stands on one line.
pub proof fn law_report_counts(verdicts: Seq<ZoneVerdict>, messages: Messages)
    ensures
        report_of(verdicts, messages).clean.len() == clean_count(verdicts),
        report_of(verdicts, messages).quiet.len() == quiet_count(verdicts),
    decreases verdicts.len(),
{
    if verdicts.len() > 0 {
        law_report_counts(verdicts.drop_last(), messages);
    }
}

/// The address is reported as listed, on a bad card, if and only if a zone
/// lists it.
pub proof fn law_bad_if_listed(verdicts: Seq<ZoneVerdict>, messages: Messages)
    ensures
        report_of(verdicts, messages).listed.len() > 0 <==> exists|i: int|
            0 <= i < verdicts.len() && (#[trigger] verdicts[i]).verdict is Listed,
        outcome_model(report_of(verdicts, messages), messages).status == Some(CardStatus::Bad)
            <==> exists|i: int|
            0 <= i < verdicts.len() && (#[trigger] verdicts[i]).verdict is Listed,
    decreases verdicts.len(),
{
    if verdicts.len() > 0 {
        let shorter = verdicts.drop_last();
        law_bad_if_listed(shorter, messages);
        assert(forall|i: int| 0 <= i < shorter.len() ==> #[trigger] shorter[i] == verdicts[i]);
        if verdicts.last().verdict is Listed {
            assert(verdicts[verdicts.len() - 1].verdict is Listed);
        } else if exists|i: int|
            0 <= i < verdicts.len() && (#[trigger] verdicts[i]).verdict is Listed {
            let i = choose|i: int|
                0 <= i < verdicts.len() && (#[trigger] verdicts[i]).verdict is Listed;
            assert(shorter[i].verdict is Listed);
        }
    }
}

/// The name that a zone is asked about is a text of labels and the zone
/// behind a dot, and the labels read backwards spell the address.
pub proof fn law_name_spells_the_address(ip: IpAddress, zone: Seq<char>, zone_has_ipv6: bool)
    requires
        ip is V4 || zone_has_ipv6,
    ensures
        ({
            let name = name_of(ip, zone, zone_has_ipv6)->0;
            let head = name.take(name.len() - zone.len() - 1);
            let labels = text::split(head, seq!['.']);
            &&& name_of(ip, zone, zone_has_ipv6) is Some
            &&& name == head + seq!['.'] + zone
            &&& match ip {
                IpAddress::V4(octets) => labels.len() == 4 && address::decimals_value(labels)
                    == address::octets_value(octets@) && forall|i: int|
                    0 <= i < 4 ==> number::digits_value(#[trigger] labels[i]) == octets@[3 - i],
                IpAddress::V6(octets) => labels.len() == 32 && address::nibbles_value(labels)
                    == address::octets_value(octets@) && forall|i: int|
                    0 <= i < 32 ==> (#[trigger] labels[i]).len() == 1,
            }
        }),
{
    reveal_strlit(".");
    assert("."@ == seq!['.']);
    let labels = address::labels_of(ip);
    let head = text::join(labels, "."@);
    let name = name_of(ip, zone, zone_has_ipv6)->0;
    address::lemma_labels_split(ip);
    address::law_labels_spell_the_address(ip);
    assert(name.take(name.len() - zone.len() - 1) == head);
}

/// The data of records come in order: those of some records and of more
/// behind them are those of the first and then those of the others.
pub proof fn law_data_come_in_order(a: Seq<Answer>, b: Seq<Answer>, kind: RecordKind)
    ensures
        data_of(a + b, kind) == data_of(a, kind) + data_of(b, kind),
    decreases b.len(),
{
    if b.len() == 0 {
        assert(a + b == a);
        assert(data_of(a, kind) + Seq::<Seq<char>>::empty() == data_of(a, kind));
    } else {
        assert((a + b).drop_last() == a + b.drop_last());
        assert((a + b).last() == b.last());
        law_data_come_in_order(a, b.drop_last(), kind);
    }
}

/// One record gives its data if it is of the kind asked for, and else nothing;
/// no record gives nothing.
pub proof fn law_data_of_one_record(answer: Answer, kind: RecordKind)
    ensures
        data_of(seq![answer], kind) == if answer.kind == kind {
            seq![answer.data@]
        } else {
            Seq::empty()
        },
        data_of(Seq::empty(), kind) == Seq::<Seq<char>>::empty(),
{
    assert(seq![answer].drop_last() == Seq::<Answer>::empty());
    assert(data_of(seq![answer].drop_last(), kind) == Seq::<Seq<char>>::empty());
    if answer.kind == kind {
        assert(data_of(seq![answer], kind) == seq![answer.data@]);
    }
}

/// Records give data if and only if one of them is of the kind.
proof fn lemma_no_data(answers: Seq<Answer>, kind: RecordKind)
    ensures
        data_of(answers, kind).len() == 0 <==> forall|i: int|
            0 <= i < answers.len() ==> (#[trigger] answers[i]).kind != kind,
    decreases answers.len(),
{
    if answers.len() > 0 {
        let shorter = answers.drop_last();
        lemma_no_data(shorter, kind);
        assert(forall|i: int| 0 <= i < shorter.len() ==> #[trigger] shorter[i] == answers[i]);
        if answers.last().kind == kind {
            assert(answers[answers.len() - 1].kind == kind);
        } else if data_of(shorter, kind).len() == 0 {
            assert forall|i: int| 0 <= i < answers.len() implies (#[trigger] answers[i]).kind
                != kind by {
                if i < shorter.len() {
                    assert(shorter[i].kind != kind);
                }
            }
        } else {
            let i = choose|i: int| 0 <= i < shorter.len() && (#[trigger] shorter[i]).kind == kind;
            assert(answers[i].kind == kind);
        }
    }
}

/// A zone is clean after its first reply if and only if there is nothing to
/// find: the lookup failed because the name does not exist or has no records,
/// be it either or both, or the answer holds no A record.
pub proof fn law_clean_if_nothing_found(name: Seq<char>, reply: Lookup)
    ensures
        next_step(QueryModel::AskA { name }, reply) == QueryModel::Done(VerdictModel::Clean) <==> (
        match reply {
            Lookup::Failed { nx_domain, no_records_found, .. } => nx_domain || no_records_found,
            Lookup::Answered(answers) => forall|i: int|
                0 <= i < answers@.len() ==> (#[trigger] answers@[i]).kind != RecordKind::A,
        }),
{
    if let Lookup::Answered(answers) = reply {
        lemma_no_data(answers@, RecordKind::A);
    }
}

/// A listing that is to be explained ends as one, under the same codes: with
/// the data of the TXT records as its reasons, or with none where the second
/// lookup failed.
pub proof fn law_reasons_are_txt_records(
    name: Seq<char>,
    codes: Seq<Seq<char>>,
    reply: Lookup,
)
    ensures
        next_step(QueryModel::AskTxt { name, codes }, reply) matches QueryModel::Done(
            VerdictModel::Listed { codes: kept, reasons },
        ) && kept == codes && (match reply {
            Lookup::Answered(answers) => reasons == data_of(answers@, RecordKind::Txt),
            Lookup::Failed { .. } => reasons.len() == 0,
        }),
{
}

/// A name with A records that do not all decline is asked about once more,
/// under the same name and with the data of all of those records as codes.
pub proof fn law_listed_name_is_asked_again(name: Seq<char>, answers: Vec<Answer>, i: int)
    requires
        0 <= i < answers@.len(),
        answers@[i].kind == RecordKind::A,
        !declines(answers@[i].data@),
    ensures
        next_step(QueryModel::AskA { name }, Lookup::Answered(answers)) == (QueryModel::AskTxt {
            name,
            codes: data_of(answers@, RecordKind::A),
        }),
{
    lemma_no_data(answers@, RecordKind::A);
    let k = lemma_place_of_data(answers@, RecordKind::A, i);
    assert(!declines(data_of(answers@, RecordKind::A)[k]));
}

proof fn lemma_place_of_data(answers: Seq<Answer>, kind: RecordKind, i: int) -> (k: int)
    requires
        0 <= i < answers.len(),
        answers[i].kind == kind,
    ensures
        0 <= k < data_of(answers, kind).len(),
        data_of(answers, kind)[k] == answers[i].data@,
    decreases answers.len(),
{
    if i == answers.len() - 1 {
        data_of(answers, kind).len() - 1
    } else {
        assert(answers.drop_last()[i] == answers[i]);
        lemma_place_of_data(answers.drop_last(), kind, i)
    }
}

/// A code says that a zone declines if and only if something follows
/// `127.255.255.` in it.
pub proof fn law_declining_codes(code: Seq<char>)
    ensures
        declines(code) <==> exists|rest: Seq<char>|
            rest.len() > 0 && code == #[trigger] ("127.255.255."@ + rest),
{
    reveal_strlit("127.255.255.");
    if declines(code) {
        let rest = code.skip(12);
        assert(code == "127.255.255."@ + rest);
    }
    if exists|rest: Seq<char>| rest.len() > 0 && code == #[trigger] ("127.255.255."@ + rest) {
        let rest = choose|rest: Seq<char>|
            rest.len() > 0 && code == #[trigger] ("127.255.255."@ + rest);
        assert(code.take(12) == "127.255.255."@);
    }
}

/// The report on some verdicts and on more behind them is the report on the
/// first followed by that on the others, card by card: nothing that a zone
/// said is lost.
pub proof fn law_reports_follow_each_other(
    a: Seq<ZoneVerdict>,
    b: Seq<ZoneVerdict>,
    messages: Messages,
)
    ensures
        ({
            let both = report_of(a + b, messages);
            let first = report_of(a, messages);
            let second = report_of(b, messages);
            &&& both.listed == first.listed + second.listed
            &&& both.clean == first.clean + second.clean
            &&& both.quiet == first.quiet + second.quiet
        }),
    decreases b.len(),
{
    let first = report_of(a, messages);
    if b.len() == 0 {
        assert(a + b == a);
        assert(first.listed + Seq::<Seq<char>>::empty() == first.listed);
        assert(first.clean + Seq::<Seq<char>>::empty() == first.clean);
        assert(first.quiet + Seq::<Seq<char>>::empty() == first.quiet);
    } else {
        assert((a + b).drop_last() == a + b.drop_last());
        assert((a + b).last() == b.last());
        law_reports_follow_each_other(a, b.drop_last(), messages);
        let both = report_of(a + b, messages);
        let second = report_of(b, messages);
        assert(both.listed == first.listed + second.listed);
        assert(both.clean == first.clean + second.clean);
        assert(both.quiet == first.quiet + second.quiet);
    }
}

/// What one zone said stands on one card: a listing as the zone with its codes
/// and then each reason indented, a clean zone by its name, and any other as
/// the zone with the reason.
pub proof fn law_report_on_one_zone(said: ZoneVerdict, messages: Messages)
    ensures
        ({
            let report = report_of(seq![said], messages);
            let zone = said.zone.name@;
            match said.verdict {
                Verdict::Listed { codes, reasons } => {
                    &&& report.clean.len() == 0 && report.quiet.len() == 0
                    &&& report.listed.len() == 1 + reasons@.len()
                    &&& report.listed[0] == zone + "   "@ + text::join(
                        text::strings(codes@),
                        ", "@,
                    )
                    &&& forall|i: int|
                        0 <= i < reasons@.len() ==> report.listed[1 + i] == "    "@ + (
                        #[trigger] reasons@[i])@
                },
                Verdict::Clean => {
                    &&& report.listed.len() == 0 && report.quiet.len() == 0
                    &&& report.clean == seq![zone]
                },
                Verdict::NoAnswer(why) => {
                    &&& report.listed.len() == 0 && report.clean.len() == 0
                    &&& report.quiet == seq![zone + "   "@ + why@]
                },
                Verdict::Skipped => {
                    &&& report.listed.len() == 0 && report.clean.len() == 0
                    &&& report.quiet == seq![zone + "   "@ + messages.net_rbl_no_ipv6@]
                },
            }
        }),
{
    let one = seq![said];
    assert(one.drop_last() == Seq::<ZoneVerdict>::empty());
    let none = report_of(one.drop_last(), messages);
    assert(none.listed.len() == 0 && none.clean.len() == 0 && none.quiet.len() == 0);
    let report = report_of(one, messages);
    match said.verdict {
        Verdict::Clean => {
            assert(report.clean == seq![said.zone.name@]);
        },
        Verdict::NoAnswer(why) => {
            assert(report.quiet == seq![said.zone.name@ + "   "@ + why@]);
        },
        Verdict::Skipped => {
            assert(report.quiet == seq![said.zone.name@ + "   "@ + messages.net_rbl_no_ipv6@]);
        },
        _ => {},
    }
}

/// How many lines the listings among the verdicts take.
pub open spec fn listed_count(verdicts: Seq<ZoneVerdict>) -> nat
    decreases verdicts.len(),
{
    if verdicts.len() == 0 {
        0
    } else {
        listed_count(verdicts.drop_last()) + match verdicts.last().verdict {
            Verdict::Listed { reasons, .. } => 1 + reasons@.len(),
            _ => 0,
        }
    }
}

/// Each listing takes one line and one more for each of its reasons, and the
/// line of each zone that lists the address is among them.
pub proof fn law_every_listing_is_reported(verdicts: Seq<ZoneVerdict>, messages: Messages)
    ensures
        report_of(verdicts, messages).listed.len() == listed_count(verdicts),
        forall|i: int|
            0 <= i < verdicts.len() ==> ((#[trigger] verdicts[i]).verdict matches Verdict::Listed {
                codes,
                ..
            } ==> report_of(verdicts, messages).listed.contains(
                verdicts[i].zone.name@ + "   "@ + text::join(text::strings(codes@), ", "@),
            )),
    decreases verdicts.len(),
{
    if verdicts.len() > 0 {
        let shorter = verdicts.drop_last();
        law_every_listing_is_reported(shorter, messages);
        law_reports_follow_each_other(shorter, seq![verdicts.last()], messages);
        law_report_on_one_zone(verdicts.last(), messages);
        assert(shorter + seq![verdicts.last()] == verdicts);
        let before = report_of(shorter, messages).listed;
        let last = report_of(seq![verdicts.last()], messages).listed;
        assert forall|i: int| 0 <= i < verdicts.len() implies (
        (#[trigger] verdicts[i]).verdict matches Verdict::Listed { codes, .. } ==> report_of(
            verdicts,
            messages,
        ).listed.contains(
            verdicts[i].zone.name@ + "   "@ + text::join(text::strings(codes@), ", "@),
        )) by {
            if let Verdict::Listed { codes, reasons } = verdicts[i].verdict {
                let line = verdicts[i].zone.name@ + "   "@ + text::join(
                    text::strings(codes@),
                    ", "@,
                );
                if i < shorter.len() {
                    assert(shorter[i] == verdicts[i]);
                    let k = before.index_of(line);
                    assert((before + last)[k] == line);
                } else {
                    assert((before + last)[before.len() as int] == line);
                }
            }
        }
    }
}

/// The cards of a lookup: first the target, then the outcome, which is bad and
/// shows the listings or else is good and counts the clean zones out of all;
/// then the clean zones and the quiet zones, each only where there are any.
pub proof fn law_cards_of_a_lookup(
    host: Seq<char>,
    ip: Seq<char>,
    verdicts: Seq<ZoneVerdict>,
    messages: Messages,
)
    ensures
        ({
            let report = report_of(verdicts, messages);
            let cards = cards_model(host, ip, report, messages);
            let clean = clean_count(verdicts);
            let quiet = quiet_count(verdicts);
            &&& cards.len() == 2 + (if clean > 0 {
                1int
            } else {
                0
            }) + (if quiet > 0 {
                1int
            } else {
                0
            })
            &&& cards[0].title == messages.net_target@ && cards[0].status is None
            &&& cards[0].lines == seq![host + " -> "@ + ip]
            &&& listed_count(verdicts) == 0 ==> cards[1].title == messages.net_rbl_clean@
                && cards[1].status == Some(CardStatus::Good) && cards[1].lines == seq![
                number::decimal(clean) + " / "@ + number::decimal(8),
            ]
            &&& listed_count(verdicts) > 0 ==> cards[1].title == messages.net_rbl_listed@
                && cards[1].status == Some(CardStatus::Bad) && cards[1].lines == report.listed
            &&& clean > 0 ==> cards[2].title == messages.net_rbl_clean_zones@ && cards[2].status
                is None && cards[2].lines == report.clean
            &&& quiet > 0 ==> cards.last().title == messages.net_rbl_no_answer@
                && cards.last().status == Some(CardStatus::Warn) && cards.last().lines
                == report.quiet
            &&& forall|i: int| 0 <= i < cards.len() ==> (#[trigger] cards[i]).raw is None
        }),
{
    law_report_counts(verdicts, messages);
    law_every_listing_is_reported(verdicts, messages);
}

/// A reply that ends the query of a zone gives that zone its verdict and keeps
/// those before it; the zones behind it that have verdicts then were skipped.
/// A reply that does not end it leaves the verdicts alone.
pub proof fn law_reply_gives_verdict(probe: ProbeModel, reply: Lookup)
    requires
        is_consistent(probe),
        probe.query is Some,
    ensures
        ({
            let after = next_probe(probe, reply);
            let n = probe.verdicts.len() as int;
            match next_step(probe.query->0, reply) {
                QueryModel::Done(verdict) => {
                    &&& after.verdicts.len() > n
                    &&& after.verdicts.take(n) == probe.verdicts
                    &&& after.verdicts[n] == verdict
                    &&& forall|i: int|
                        n < i < after.verdicts.len() ==> (#[trigger] after.verdicts[i]) is Skipped
                },
                query => after.verdicts == probe.verdicts && after.query == Some(query),
            }
        }),
{
    let n = probe.verdicts.len() as int;
    if let QueryModel::Done(verdict) = next_step(probe.query->0, reply) {
        let longer = probe.verdicts.push(verdict);
        if longer.len() < ZONE_COUNT {
            lemma_settle_adds_skipped(
                probe.ip,
                longer,
                query_at(probe.ip, longer.len() as int),
            );
        }
        let after = next_probe(probe, reply);
        assert(after.verdicts.take(n) == probe.verdicts);
    }
}

proof fn lemma_settle_adds_skipped(
    ip: IpAddress,
    verdicts: Seq<VerdictModel>,
    query: QueryModel,
)
    requires
        verdicts.len() < ZONE_COUNT,
        query matches QueryModel::Done(verdict) ==> verdict is Skipped,
    ensures
        ({
            let after = settle(ip, verdicts, query).verdicts;
            &&& after.len() >= verdicts.len()
            &&& forall|i: int| 0 <= i < verdicts.len() ==> #[trigger] after[i] == verdicts[i]
            &&& forall|i: int| verdicts.len() <= i < after.len() ==> (#[trigger] after[i]) is Skipped
        }),
    decreases ZONE_COUNT - verdicts.len(),
{
    if let QueryModel::Done(verdict) = query {
        let longer = verdicts.push(verdict);
        if longer.len() < ZONE_COUNT {
            lemma_settle_adds_skipped(ip, longer, query_at(ip, longer.len() as int));
        }
        let after = settle(ip, verdicts, query).verdicts;
        assert forall|i: int| 0 <= i < verdicts.len() implies #[trigger] after[i]
            == verdicts[i] by {
            assert(longer[i] == verdicts[i]);
        }
        assert forall|i: int| verdicts.len() <= i < after.len() implies (
        #[trigger] after[i]) is Skipped by {
            if i == verdicts.len() {
                assert(longer[i] is Skipped);
                assert(after[i] == longer[i]);
            }
        }
    }
}

/// The zones that publish IPv6 listings, and the names of all.
pub proof fn law_zone_names()
    ensures
        zone_list().len() == 8,
        forall|i: int| 0 <= i < 8 ==> ((#[trigger] zone_list()[i]).1 <==> i == 0 || i == 5),
        zone_list()[0].0 == "zen.spamhaus.org"@,
        zone_list()[1].0 == "bl.spamcop.net"@,
        zone_list()[2].0 == "b.barracudacentral.org"@,
        zone_list()[3].0 == "dnsbl.sorbs.net"@,
        zone_list()[4].0 == "psbl.surriel.com"@,
        zone_list()[5].0 == "bl.blocklist.de"@,
        zone_list()[6].0 == "dnsbl-1.uceprotect.net"@,
        zone_list()[7].0 == "all.s5h.net"@,
{
}

/// A query that has come to its end stays as it is, and so does a lookup in
/// which every zone has its verdict.
pub proof fn law_the_end_is_the_end(verdict: VerdictModel, probe: ProbeModel, reply: Lookup)
    ensures
        next_step(QueryModel::Done(verdict), reply) == QueryModel::Done(verdict),
        probe.query is None ==> next_probe(probe, reply) == probe,
{
}

/// A lookup asks for the A records of a name first and for its TXT records
/// then, and for nothing at its end.
pub proof fn law_questions(name: Seq<char>, codes: Seq<Seq<char>>)
    ensures
        question_of(Some(QueryModel::AskA { name })) == Some((name, RecordKind::A)),
        question_of(Some(QueryModel::AskTxt { name, codes })) == Some((name, RecordKind::Txt)),
        question_of(None) is None,
{
}

} // verus!
