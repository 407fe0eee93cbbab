use net_tools::card::{CardStatus, Messages, NetToolCard};
use net_tools::number::Number;
use net_tools::ping::{
    number_before, parse_ping, percent_before, ping_cards, ping_command, ping_status, probe_ping,
    Loss, PingSummary,
};
use net_tools::tool::ToolRun;

const LINUX_PING: &str = "PING example.com (93.184.216.34) 56(84) bytes of data.\n\
64 bytes from 93.184.216.34: icmp_seq=1 ttl=54 time=11.2 ms\n\
\n--- example.com ping statistics ---\n\
4 packets transmitted, 4 received, 0% packet loss, time 3005ms\n\
rtt min/avg/max/mdev = 11.155/11.402/11.717/0.205 ms\n";

const MACOS_PING: &str = "--- example.com ping statistics ---\n\
4 packets transmitted, 3 packets received, 25.0% packet loss\n\
round-trip min/avg/max/stddev = 11.155/11.402/11.717/0.205 ms\n";

const WINDOWS_PING: &str = "Pinging example.com [93.184.216.34] with 32 bytes of data:\r\n\
Reply from 93.184.216.34: bytes=32 time=11ms TTL=54\r\n\
\r\nPing statistics for 93.184.216.34:\r\n\
    Packets: Sent = 4, Received = 4, Lost = 0 (0% loss),\r\n\
Approximate round trip times in milli-seconds:\r\n\
    Minimum = 11ms, Maximum = 13ms, Average = 12ms\r\n";

const UNREACHABLE_PING: &str = "--- 10.0.0.1 ping statistics ---\n\
4 packets transmitted, 0 received, 100% packet loss, time 3068ms\n";

fn value(n: &Number) -> f32 {
    n.as_str().parse().unwrap()
}

fn loss_of(loss: &Loss) -> f32 {
    match loss {
        Loss::Zero => 0.0,
        Loss::Printed(n) => value(n),
        Loss::Share { lost, transmitted } => *lost as f32 / *transmitted as f32 * 100.0,
        Loss::Counted { transmitted, received } => {
            let sent = value(transmitted);
            (sent - value(received)) / sent * 100.0
        }
    }
}

fn rtt_of(s: &PingSummary) -> (f32, f32, f32) {
    let (min, avg, max) = s.rtt_ms.as_ref().expect("rtt");
    (value(min), value(avg), value(max))
}

fn messages() -> Messages {
    Messages {
        net_ping_summary: "{recv} of {sent} received, {loss}% lost".to_string(),
        net_ping_rtt: "Round trip".to_string(),
        net_trace_hops: "{n} hops".to_string(),
        net_raw_output: "Raw output".to_string(),
        net_tool_missing_binary: "Not installed".to_string(),
        net_tool_missing_binary_desc: "not found".to_string(),
        net_tool_missing_windows: "check PATH".to_string(),
        net_tool_missing_traceroute: "install traceroute".to_string(),
        net_tool_missing_ping: "install iputils".to_string(),
        net_err_timeout: "Timed out".to_string(),
        net_target: "Target".to_string(),
        net_rbl_no_ipv6: "no IPv6".to_string(),
        net_rbl_clean: "Clean".to_string(),
        net_rbl_listed: "Listed".to_string(),
        net_rbl_clean_zones: "Clean zones".to_string(),
        net_rbl_no_answer: "No answer".to_string(),
    }
}

fn print_loss(transmitted: &Number, received: &Number) -> String {
    let sent = value(transmitted);
    format!("{:.0}", (sent - value(received)) / sent * 100.0)
}

fn print_number(n: &Number, decimals: u8) -> String {
    format!("{:.*}", decimals as usize, value(n))
}

fn cards(output: &str) -> Vec<NetToolCard> {
    ping_cards("example.com", output, print_loss, print_number, &messages())
}

#[test]
fn linux_ping_stats() {
    let s = parse_ping(LINUX_PING).expect("summary");
    assert_eq!((s.transmitted, s.received), (4, 4));
    assert_eq!(loss_of(&s.loss_pct), 0.0);
    let (min, avg, max) = rtt_of(&s);
    assert!((min - 11.155).abs() < 0.001);
    assert!((avg - 11.402).abs() < 0.001);
    assert!((max - 11.717).abs() < 0.001);
}

#[test]
fn macos_ping_stats() {
    let s = parse_ping(MACOS_PING).expect("summary");
    assert_eq!((s.transmitted, s.received), (4, 3));
    assert_eq!(loss_of(&s.loss_pct), 25.0);
    assert!(s.rtt_ms.is_some());
}

#[test]
fn windows_ping_stats() {
    let s = parse_ping(WINDOWS_PING).expect("summary");
    assert_eq!((s.transmitted, s.received), (4, 4));
    assert_eq!(loss_of(&s.loss_pct), 0.0);
    // Windows prints min, max, average; the summary reports
    // min / avg / max like every other platform.
    let (min, avg, max) = rtt_of(&s);
    assert_eq!((min, avg, max), (11.0, 12.0, 13.0));
}

#[test]
fn total_loss_is_reported_not_dropped() {
    let s = parse_ping(UNREACHABLE_PING).expect("summary");
    assert_eq!(s.received, 0);
    assert_eq!(loss_of(&s.loss_pct), 100.0);
    assert!(s.rtt_ms.is_none());
}

#[test]
fn unparseable_output_yields_no_summary() {
    assert!(parse_ping("ping: unknown host nope.invalid").is_none());
    assert!(parse_ping("").is_none());
}

#[test]
fn the_texts_of_a_summary_are_those_printed() {
    let s = parse_ping(LINUX_PING).expect("summary");
    let (min, avg, max) = s.rtt_ms.as_ref().expect("rtt");
    assert_eq!((min.as_str(), avg.as_str(), max.as_str()), ("11.155", "11.402", "11.717"));
    match &s.loss_pct {
        Loss::Printed(n) => assert_eq!(n.as_str(), "0"),
        _ => panic!("the share was printed"),
    }
}

#[test]
fn a_missing_share_is_left_to_the_counters() {
    let s = parse_ping("8 packets transmitted, 2 received\n").expect("summary");
    assert_eq!((s.transmitted, s.received), (8, 2));
    assert_eq!(s.loss_pct, Loss::Share { lost: 6, transmitted: 8 });
    assert_eq!(loss_of(&s.loss_pct), 75.0);
    let s = parse_ping("4 packets transmitted, 3 received").expect("summary");
    assert_eq!(s.loss_pct, Loss::Share { lost: 1, transmitted: 4 });
    assert_eq!(loss_of(&s.loss_pct), 25.0);
    for none in ["0", "0.0", "-0", "0e9", "1e-60"] {
        let line = format!("{none} packets transmitted, 3 received\n");
        assert_eq!(parse_ping(&line).expect("summary").loss_pct, Loss::Zero);
    }
    for odd in ["4.5 packets transmitted, 3 received", "3 packets transmitted, 4 received"] {
        let s = parse_ping(odd).expect("summary");
        assert!(matches!(s.loss_pct, Loss::Counted { .. }));
    }
}

#[test]
fn the_last_posix_counters_win() {
    let output = "Sent = 9, Received = 9, Lost = 0 (0% loss)\n\
        1 packets transmitted, 1 received, 0% packet loss\n\
        rtt min/avg/max/mdev = 1/2/3/0 ms\n\
        Sent = 7, Received = 7, Lost = 0 (0% loss)\n\
        5 packets transmitted, 4 received, 20% packet loss\n\
        rtt min/avg/max/mdev = 4/5/6/0 ms\n";
    let s = parse_ping(output).expect("summary");
    assert_eq!((s.transmitted, s.received), (5, 4));
    assert_eq!(loss_of(&s.loss_pct), 20.0);
    assert_eq!(rtt_of(&s), (4.0, 5.0, 6.0));
}

#[test]
fn the_first_windows_counters_win() {
    let output = "Gesendet = 9, Empfangen = 8, Verloren = 1 (11% Verlust),\n\
        Gesendet = 7, Empfangen = 7, Verloren = 0 (0% Verlust),\n";
    let s = parse_ping(output).expect("summary");
    assert_eq!((s.transmitted, s.received), (9, 8));
    assert_eq!(loss_of(&s.loss_pct), 11.0);
}

#[test]
fn new_counters_forget_older_times() {
    let output = "5 packets transmitted, 5 received, 0% packet loss\n\
        rtt min/avg/max/mdev = 4/5/6/0 ms\n\
        3 packets transmitted, 3 received, 0% packet loss\n";
    let s = parse_ping(output).expect("summary");
    assert_eq!(s.transmitted, 3);
    assert!(s.rtt_ms.is_none());
}

#[test]
fn times_without_counters_make_no_summary() {
    assert!(parse_ping("rtt min/avg/max/mdev = 4/5/6/0 ms\n").is_none());
}

#[test]
fn a_windows_line_needs_three_numbers_and_a_share() {
    assert!(parse_ping("Sent = 4, Received = 4 (0% loss)\n").is_none());
    assert!(parse_ping("Sent = 4, Received = 4, Lost = 0, 0% loss\n").is_none());
    assert!(parse_ping("Sent = 4, Received = 4, Lost = 0 (none, 0%)\n").is_none());
    assert!(parse_ping("Sent = 4, Received = 4, Lost = 0 ( 0 % loss)\n").is_some());
}

#[test]
fn counters_beyond_range_are_cut() {
    let s = parse_ping("9999999999 packets transmitted, -3 received\n").expect("summary");
    assert_eq!((s.transmitted, s.received), (u32::MAX, 0));
    let s = parse_ping("16777217 packets transmitted, 2.9 received\n").expect("summary");
    assert_eq!((s.transmitted, s.received), (16777216, 2));
}

#[test]
fn the_command_follows_the_platform() {
    let posix = ping_command("example.com", false);
    assert_eq!(posix.program, "ping");
    assert_eq!(posix.args, vec!["-c", "4", "example.com"]);
    assert_eq!(posix.budget_secs, 25);
    let windows = ping_command("10.0.0.1", true);
    assert_eq!(windows.program, "ping");
    assert_eq!(windows.args, vec!["-n", "4", "10.0.0.1"]);
}

#[test]
fn the_verdict_follows_the_counters() {
    let mut s = parse_ping(LINUX_PING).expect("summary");
    assert_eq!(ping_status(&s), CardStatus::Good);
    s.received = 3;
    assert_eq!(ping_status(&s), CardStatus::Warn);
    s.received = 0;
    assert_eq!(ping_status(&s), CardStatus::Bad);
    s.transmitted = 0;
    assert_eq!(ping_status(&s), CardStatus::Bad);
    s.received = 5;
    assert_eq!(ping_status(&s), CardStatus::Good);
}

#[test]
fn slow_times_have_one_decimal() {
    let cards = cards(LINUX_PING);
    assert_eq!(cards.len(), 2);
    assert_eq!(cards[0].title, "example.com");
    assert_eq!(
        cards[0].lines,
        vec!["4 of 4 received, 0% lost", "Round trip: 11.2 / 11.4 / 11.7 ms"]
    );
    assert_eq!(cards[0].status, Some(CardStatus::Good));
    assert_eq!(cards[0].raw.as_deref(), Some(LINUX_PING));
}

#[test]
fn fast_times_have_three_decimals() {
    let output = "2 packets transmitted, 2 received, 0% packet loss\n\
        rtt min/avg/max/mdev = 0.021/0.030/9.999/0.009 ms\n";
    let cards = cards(output);
    assert_eq!(cards[0].lines[1], "Round trip: 0.021 / 0.030 / 9.999 ms");
    let output = "2 packets transmitted, 1 received, 50% packet loss\n\
        rtt min/avg/max/mdev = 0.021/0.030/10/0.009 ms\n";
    let cards = self::cards(output);
    assert_eq!(cards[0].lines[1], "Round trip: 0.0 / 0.0 / 10.0 ms");
    assert_eq!(cards[0].status, Some(CardStatus::Warn));
}

#[test]
fn a_ping_without_times_has_one_line() {
    let cards = cards(UNREACHABLE_PING);
    assert_eq!(cards[0].lines, vec!["0 of 4 received, 100% lost"]);
    assert_eq!(cards[0].status, Some(CardStatus::Bad));
}

#[test]
fn the_raw_output_comes_last() {
    for output in [LINUX_PING, MACOS_PING, WINDOWS_PING, UNREACHABLE_PING] {
        let cards = cards(output);
        assert_eq!(cards.len(), 2);
        assert_eq!(cards[1].title, "Raw output");
        let lines: Vec<&str> = output.lines().collect();
        assert_eq!(cards[1].lines, lines);
        assert_eq!(cards[1].status, None);
        assert_eq!(cards[1].raw.as_deref(), Some(output));
    }
    let cards = cards("ping: unknown host nope.invalid");
    assert_eq!(cards.len(), 1);
    assert_eq!(cards[0].lines, vec!["ping: unknown host nope.invalid"]);
}

#[test]
fn a_finished_ping_is_answered_by_its_output() {
    let run = ToolRun::Finished { stdout: LINUX_PING.as_bytes().to_vec(), stderr: Vec::new() };
    let answer = probe_ping("example.com", run, false, print_loss, print_number, &messages());
    assert_eq!(answer, cards(LINUX_PING));
}

#[test]
fn a_ping_that_did_not_run_is_answered_by_one_card() {
    let answer =
        probe_ping("h", ToolRun::TimedOut, false, print_loss, print_number, &messages());
    assert_eq!(answer.len(), 1);
    assert_eq!(answer[0].title, "ping");
    assert_eq!(answer[0].lines, vec!["Timed out (25s)"]);
    assert_eq!(answer[0].status, Some(CardStatus::Warn));
}

#[test]
fn a_number_is_read_right_before_its_marker() {
    let read = |line: &str, marker: &str| {
        let chars: Vec<char> = line.chars().collect();
        number_before(&chars, marker).map(|n| n.as_str().to_string())
    };
    assert_eq!(read("a 4 packets, 5 packets", "packets").as_deref(), Some("4"));
    assert_eq!(read("4packets", "packets").as_deref(), Some("4"));
    assert_eq!(read("a packets", "packets"), None);
    assert_eq!(read("packets", "packets"), None);
    assert_eq!(read("a 4", "packets"), None);
    assert_eq!(read("ping took 42", "received"), None);
    assert_eq!(read("a 4", ""), None);
    let chars: Vec<char> = "lost 25.0%% packet loss".chars().collect();
    assert_eq!(percent_before(&chars, "packet loss").unwrap().as_str(), "25.0");
    let chars: Vec<char> = "4 packets transmitted, 3 received, time 3005".chars().collect();
    assert!(percent_before(&chars, "packet loss").is_none());
}

#[test]
fn counters_are_no_times() {
    let counters = "Packets: Sent = 4, Received = 4, Lost = 0 (0% loss),\n";
    assert!(parse_ping(counters).expect("summary").rtt_ms.is_none());
    let output = format!("{counters}Minimum = 1ms, Maximum = 3ms\nMin = 4ms, Max = 6.5ms, Moy = 5ms\n");
    assert_eq!(rtt_of(&parse_ping(&output).expect("summary")), (4.0, 5.0, 6.5));
}

#[test]
fn a_marker_that_is_not_there_makes_no_summary() {
    assert!(parse_ping("transmitted 5").is_none());
    assert!(parse_ping("5 transmitted 6").is_none());
    let s = parse_ping("4 packets transmitted, 3 received, time 3005").expect("summary");
    assert_eq!((s.transmitted, s.received), (4, 3));
    assert_eq!(loss_of(&s.loss_pct), 25.0);
}

#[test]
fn a_share_in_brackets_needs_its_percent_sign() {
    assert!(parse_ping("50% a = 1, b = 2, c = 3 (7").is_none());
    assert!(parse_ping("50% a = 1, b = 2, c = 3 (7 lost) 8% (9%)").is_none());
}

#[test]
fn every_windows_time_carries_its_unit() {
    let counters = "Packets: Sent = 4, Received = 4, Lost = 0 (0% loss),\n";
    let times = |line: &str| parse_ping(&format!("{counters}{line}\n")).expect("summary").rtt_ms;
    assert!(times("items = 1, terms = 2, forms = 3").is_none());
    assert!(times("Min = 1ms, Max = 3ms, Avg = 2ms, ms = 4").is_none());
    assert!(times("Min = 1ms, Max = 3ms, Avg = 2").is_none());
    let (min, avg, max) = times("Min = 1 ms, Max =3ms, Avg = 2\tms, Note = none").expect("times");
    assert_eq!((min.as_str(), avg.as_str(), max.as_str()), ("1", "2", "3"));
}

#[test]
fn counters_read_the_same_in_any_language() {
    let english = parse_ping("Packets: Sent = 4, Received = 3, Lost = 1 (25% loss),");
    let german = parse_ping("Pakete: Gesendet = 4, Empfangen = 3, Verloren = 1 (25% Verlust),");
    assert_eq!(english, german);
    let s = german.expect("summary");
    assert_eq!((s.transmitted, s.received), (4, 3));
    assert_eq!(loss_of(&s.loss_pct), 25.0);
}

#[test]
fn other_lines_leave_the_summary_alone() {
    let plain = parse_ping(LINUX_PING);
    let lines: Vec<&str> = LINUX_PING.lines().collect();
    for at in 0..=lines.len() {
        let mut more = lines.clone();
        more.insert(at, "9 received, 50% packet loss (3%) 1ms 2ms 3ms\r");
        assert_eq!(parse_ping(&more.join("\n")), plain);
    }
}

#[test]
fn the_share_on_the_card_is_that_of_the_counters() {
    let line = |output: &str| cards(output)[0].lines[0].clone();
    assert_eq!(line("4 packets transmitted, 3 received"), "3 of 4 received, 25% lost");
    assert_eq!(line("0 packets transmitted, 0 received"), "0 of 0 received, 0% lost");
    assert_eq!(line("8 packets transmitted, 7 received"), "7 of 8 received, 12% lost");
    assert_eq!(line("3 packets transmitted, 4 received"), "4 of 3 received, -33% lost");
    assert_eq!(line("4 packets transmitted, 3 received, 26.5% packet loss"), "3 of 4 received, 26% lost");
}
