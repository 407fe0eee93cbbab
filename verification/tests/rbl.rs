use net_tools::address::{ip_literal, looks_like_address, reversed_labels, IpAddress};
use net_tools::card::{CardStatus, Messages};
use net_tools::rbl::{
    query_name, rbl_cards, zones, Answer, Lookup, Probe, Question, RecordKind, Verdict, Zone, ZoneQuery,
    ZoneVerdict, ZONE_COUNT,
};

/// 2001:db8::1
const V6: IpAddress =
    IpAddress::V6([0x20, 0x01, 0x0d, 0xb8, 0, 0, 0, 0, 0, 0, 0, 0, 0, 0, 0, 1]);

fn messages() -> Messages {
    Messages {
        net_ping_summary: String::new(),
        net_ping_rtt: String::new(),
        net_trace_hops: String::new(),
        net_raw_output: String::new(),
        net_tool_missing_binary: String::new(),
        net_tool_missing_binary_desc: String::new(),
        net_tool_missing_windows: String::new(),
        net_tool_missing_traceroute: String::new(),
        net_tool_missing_ping: String::new(),
        net_err_timeout: String::new(),
        net_target: "Target".to_string(),
        net_rbl_no_ipv6: "no IPv6".to_string(),
        net_rbl_clean: "Clean".to_string(),
        net_rbl_listed: "Listed".to_string(),
        net_rbl_clean_zones: "Clean zones".to_string(),
        net_rbl_no_answer: "No answer".to_string(),
    }
}

fn answer(kind: RecordKind, data: &str) -> Answer {
    Answer { kind, data: data.to_string() }
}

fn failed(nx_domain: bool, no_records_found: bool) -> Lookup {
    Lookup::Failed { nx_domain, no_records_found, message: "refused".to_string() }
}

fn ask(name: &str) -> ZoneQuery {
    ZoneQuery::AskA { name: name.to_string() }
}

fn chars(s: &str) -> Vec<char> {
    s.chars().collect()
}

#[test]
fn ipv4_query_name_reverses_the_octets() {
    assert_eq!(
        query_name(&IpAddress::V4([1, 2, 3, 4]), "zen.spamhaus.org", true).unwrap(),
        "4.3.2.1.zen.spamhaus.org"
    );
    // The test address every DNSBL lists on purpose.
    assert_eq!(
        query_name(&IpAddress::V4([127, 0, 0, 2]), "bl.spamcop.net", false).unwrap(),
        "2.0.0.127.bl.spamcop.net"
    );
}

#[test]
fn ipv6_query_name_is_nibbles() {
    let name = query_name(&V6, "zen.spamhaus.org", true).unwrap();
    assert!(name.starts_with("1.0.0.0."));
    assert!(name.ends_with(".zen.spamhaus.org"));
    let labels = name.trim_end_matches(".zen.spamhaus.org");
    assert_eq!(labels.split('.').count(), 32);
}

#[test]
fn a_v4_only_zone_skips_a_v6_target() {
    assert!(query_name(&V6, "bl.spamcop.net", false).is_none());
    // ... and still answers for a v4 target.
    assert!(query_name(&IpAddress::V4([1, 2, 3, 4]), "bl.spamcop.net", false).is_some());
}

#[test]
fn zone_list_has_no_duplicates() {
    let zones = zones();
    let mut names: Vec<&str> = zones.iter().map(|z| z.name).collect();
    let count = names.len();
    names.sort_unstable();
    names.dedup();
    assert_eq!(names.len(), count);
}

#[test]
fn the_zones_are_the_eight_public_ones() {
    let zones = zones();
    assert_eq!(zones.len(), ZONE_COUNT);
    assert_eq!(zones[0], Zone { name: "zen.spamhaus.org", ipv6: true });
    assert_eq!(zones[5], Zone { name: "bl.blocklist.de", ipv6: true });
    assert_eq!(zones.iter().filter(|z| z.ipv6).count(), 2);
}

#[test]
fn labels_are_least_significant_first() {
    assert_eq!(reversed_labels(&IpAddress::V4([255, 10, 0, 9])), "9.0.10.255");
    assert_eq!(
        reversed_labels(&V6),
        "1.0.0.0.0.0.0.0.0.0.0.0.0.0.0.0.0.0.0.0.0.0.0.0.8.b.d.0.1.0.0.2"
    );
    assert_eq!(&reversed_labels(&IpAddress::V6([0xef; 16]))[..8], "f.e.f.e.");
}

#[test]
fn a_query_without_ipv6_data_is_skipped() {
    let zone = Zone { name: "bl.spamcop.net", ipv6: false };
    assert_eq!(ZoneQuery::start(&V6, &zone), ZoneQuery::Done(Verdict::Skipped));
    assert_eq!(
        ZoneQuery::start(&IpAddress::V4([1, 2, 3, 4]), &zone),
        ask("4.3.2.1.bl.spamcop.net")
    );
}

#[test]
fn an_answer_means_listed() {
    let reply = Lookup::Answered(vec![
        answer(RecordKind::Other, "alias"),
        answer(RecordKind::A, "127.0.0.2"),
        answer(RecordKind::A, "127.0.0.4"),
    ]);
    let query = ask("n").step(reply);
    let codes = vec!["127.0.0.2".to_string(), "127.0.0.4".to_string()];
    assert_eq!(query, ZoneQuery::AskTxt { name: "n".to_string(), codes: codes.clone() });
    let txt = Lookup::Answered(vec![
        answer(RecordKind::Txt, "listed in CSS"),
        answer(RecordKind::A, "127.0.0.9"),
    ]);
    assert_eq!(
        query.clone().step(txt),
        ZoneQuery::Done(Verdict::Listed {
            codes: codes.clone(),
            reasons: vec!["listed in CSS".to_string()],
        })
    );
    assert_eq!(
        query.step(failed(false, false)),
        ZoneQuery::Done(Verdict::Listed { codes, reasons: Vec::new() })
    );
}

#[test]
fn absence_means_clean() {
    let clean = ZoneQuery::Done(Verdict::Clean);
    assert_eq!(ask("n").step(failed(true, false)), clean);
    assert_eq!(ask("n").step(failed(false, true)), clean);
    assert_eq!(ask("n").step(Lookup::Answered(Vec::new())), clean);
    assert_eq!(
        ask("n").step(Lookup::Answered(vec![answer(RecordKind::Txt, "x")])),
        clean
    );
}

#[test]
fn a_failed_lookup_is_no_answer() {
    let end = ask("n").step(failed(false, false));
    assert_eq!(end, ZoneQuery::Done(Verdict::NoAnswer("refused".to_string())));
    assert_eq!(end.clone().step(failed(true, true)), end);
}

#[test]
fn a_listing_makes_the_report_bad() {
    let zones = zones();
    let verdicts = vec![
        ZoneVerdict {
            zone: zones[0],
            verdict: Verdict::Listed {
                codes: vec!["127.0.0.2".to_string(), "127.0.0.3".to_string()],
                reasons: vec!["why".to_string(), "where".to_string()],
            },
        },
        ZoneVerdict { zone: zones[1], verdict: Verdict::Clean },
        ZoneVerdict { zone: zones[2], verdict: Verdict::NoAnswer("refused".to_string()) },
        ZoneVerdict { zone: zones[3], verdict: Verdict::Skipped },
    ];
    let cards = rbl_cards("mx.example.com", "192.0.2.1", &verdicts, &messages());
    assert_eq!(cards.len(), 4);
    assert_eq!(cards[0].title, "Target");
    assert_eq!(cards[0].lines, vec!["mx.example.com -> 192.0.2.1"]);
    assert_eq!(cards[0].status, None);
    assert_eq!(cards[1].title, "Listed");
    assert_eq!(
        cards[1].lines,
        vec!["zen.spamhaus.org   127.0.0.2, 127.0.0.3", "    why", "    where"]
    );
    assert_eq!(cards[1].status, Some(CardStatus::Bad));
    assert_eq!(cards[2].title, "Clean zones");
    assert_eq!(cards[2].lines, vec!["bl.spamcop.net"]);
    assert_eq!(cards[2].status, None);
    assert_eq!(cards[3].title, "No answer");
    assert_eq!(
        cards[3].lines,
        vec!["b.barracudacentral.org   refused", "dnsbl.sorbs.net   no IPv6"]
    );
    assert_eq!(cards[3].status, Some(CardStatus::Warn));
}

#[test]
fn silence_is_not_counted_as_clean() {
    let zones = zones();
    let verdicts: Vec<ZoneVerdict> = zones
        .iter()
        .enumerate()
        .map(|(i, zone)| ZoneVerdict {
            zone: *zone,
            verdict: if i < 5 { Verdict::Clean } else { Verdict::NoAnswer("refused".to_string()) },
        })
        .collect();
    let cards = rbl_cards("h", "192.0.2.1", &verdicts, &messages());
    assert_eq!(cards.len(), 4);
    assert_eq!(cards[1].title, "Clean");
    assert_eq!(cards[1].lines, vec!["5 / 8"]);
    assert_eq!(cards[1].status, Some(CardStatus::Good));
    assert_eq!(cards[2].lines.len(), 5);
    assert_eq!(cards[3].lines.len(), 3);
    let quiet = rbl_cards("h", "192.0.2.1", &Vec::new(), &messages());
    assert_eq!(quiet.len(), 2);
    assert_eq!(quiet[1].lines, vec!["0 / 8"]);
}

#[test]
fn addresses_are_told_from_prose() {
    for token in [
        "192.168.0.1", "192.168.0.1.", "fe80::1", "::", "gw.example.com", "a-b_c.example.com..",
        "x.co", "a.b2", "..example.com", "a:b.com",
    ] {
        assert!(looks_like_address(&chars(token)), "{token}");
    }
    for token in [
        "", ".", "...", "11.402", "300.1.1.12", "a.12", "Request", "timed", "out.", "localhost", "a.b", "!H", "example.c-m",
        "gw,example.com", "example.com!", "exämple.com", "1:2", "[10.0.0.1]",
    ] {
        assert!(!looks_like_address(&chars(token)), "{token}");
    }
}

#[test]
fn ip_literals_of_both_families_are_recognized() {
    for s in [
        "0.0.0.0", "255.255.255.255", "1.2.3.4", "::", "::1", "1::", "1:2:3:4:5:6:7:8",
        "1:2:3:4:5:6:7::", "::2:3:4:5:6:7:8", "1::8", "2001:DB8::A", "::ffff:1.2.3.4",
        "1:2:3:4:5:6:1.2.3.4", "1::1.2.3.4", "1:2:3:4:5::1.2.3.4",
    ] {
        assert!(ip_literal(&chars(s)), "{s}");
    }
    for s in [
        "", "1", "1.2.3", "1.2.3.4.5", "256.1.1.1", "01.2.3.4", "1.2.3.04", "1.2.3.", ".1.2.3",
        "1..2.3", "1.2.3.4 ", "+1.2.3.4", "1.2.3.1000", ":", ":::", "1:2:3:4:5:6:7", "12345::",
        "1:2:3:4:5:6:7:8:9", "1:2:3:4:5:6:7:8::", "1::2::3", "::1:", ":1::", "1.2.3.4::",
        "1:2:3:4:5:6:7:1.2.3.4", "1:2:3:4:5:6::1.2.3.4", "::1.2.3.4:5", "fe80::1%eth0", "g::",
        "1:2:3:4:5:6:7:8:", "::1.2.3", "[::1]",
    ] {
        assert!(!ip_literal(&chars(s)), "{s}");
    }
}

#[test]
fn the_zones_are_asked_in_turn() {
    let zones = zones();
    let mut probe = Probe::start(IpAddress::V4([127, 0, 0, 2]));
    for i in 0..ZONE_COUNT {
        let name = format!("2.0.0.127.{}", zones[i].name);
        assert_eq!(probe.verdicts().len(), i);
        assert_eq!(probe.question(), Some(Question { name: name.clone(), kind: RecordKind::A }));
        if i % 2 == 0 {
            probe = probe.step(failed(true, false));
        } else {
            probe = probe.step(Lookup::Answered(vec![answer(RecordKind::A, "127.0.0.2")]));
            assert_eq!(probe.verdicts().len(), i);
            assert_eq!(probe.question(), Some(Question { name, kind: RecordKind::Txt }));
            probe = probe.step(Lookup::Answered(vec![answer(RecordKind::Txt, "why")]));
        }
    }
    assert_eq!(probe.question(), None);
    for (i, said) in probe.verdicts().iter().enumerate() {
        assert_eq!(said.zone, zones[i]);
        let listed = Verdict::Listed {
            codes: vec!["127.0.0.2".to_string()],
            reasons: vec!["why".to_string()],
        };
        assert_eq!(said.verdict, if i % 2 == 0 { Verdict::Clean } else { listed });
    }
    probe = probe.step(failed(false, false));
    assert_eq!(probe.verdicts().len(), ZONE_COUNT);
}

#[test]
fn an_ipv6_target_skips_the_zones_without_listings() {
    let mut probe = Probe::start(V6);
    let mut lookups = 0;
    while let Some(question) = probe.question() {
        assert!(question.name.starts_with("1.0.0.0."));
        probe = probe.step(failed(true, false));
        lookups += 1;
    }
    assert_eq!(lookups, 2);
    assert_eq!(probe.verdicts().len(), ZONE_COUNT);
    for said in probe.verdicts() {
        assert_eq!(said.verdict == Verdict::Skipped, !said.zone.ipv6);
    }
}

#[test]
fn a_zone_that_declines_gives_no_answer() {
    let reply = |codes: &[&str]| {
        Lookup::Answered(codes.iter().map(|c| answer(RecordKind::A, c)).collect())
    };
    let end = ask("n").step(reply(&["127.255.255.254", "127.255.255.255"]));
    let why = "127.255.255.254, 127.255.255.255".to_string();
    assert_eq!(end, ZoneQuery::Done(Verdict::NoAnswer(why)));
    for codes in [&["127.255.255.254", "127.0.0.2"][..], &["127.255.25.1"], &["127.255.255."]] {
        assert!(matches!(ask("n").step(reply(codes)), ZoneQuery::AskTxt { .. }));
    }
    let zones = zones();
    let verdict = Verdict::NoAnswer("127.255.255.254".to_string());
    let verdicts = vec![ZoneVerdict { zone: zones[0], verdict }];
    let cards = rbl_cards("h", "192.0.2.1", &verdicts, &messages());
    assert_eq!(cards[1].lines, vec!["0 / 8"]);
    assert_eq!(cards[2].lines, vec!["zen.spamhaus.org   127.255.255.254"]);
}
