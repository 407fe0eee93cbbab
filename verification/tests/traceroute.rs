use net_tools::card::{CardStatus, Messages, NetToolCard};
use net_tools::number::Number;
use net_tools::tool::ToolRun;
use net_tools::traceroute::{
    parse_time_token, parse_traceroute, path_status, probe_traceroute, traceroute_cards,
    traceroute_command, Hop, HopTime,
};

fn value(time: &HopTime) -> f32 {
    match time {
        HopTime::BelowResolution => 0.0,
        HopTime::Millis(n) => n.as_str().parse().unwrap(),
    }
}

fn values(hop: &Hop) -> Vec<f32> {
    hop.times_ms.iter().map(value).collect()
}

fn print_time(time: &HopTime) -> String {
    format!("{:.1}", value(time))
}

fn print_number(n: &Number, decimals: u8) -> String {
    format!("{:.*}", decimals as usize, n.as_str().parse::<f32>().unwrap())
}

fn messages() -> Messages {
    Messages {
        net_ping_summary: String::new(),
        net_ping_rtt: String::new(),
        net_trace_hops: "{n} hops, {n}".to_string(),
        net_raw_output: "Raw output".to_string(),
        net_tool_missing_binary: "Not installed".to_string(),
        net_tool_missing_binary_desc: "not found".to_string(),
        net_tool_missing_windows: "check PATH".to_string(),
        net_tool_missing_traceroute: "install traceroute".to_string(),
        net_tool_missing_ping: "install iputils".to_string(),
        net_err_timeout: "Timed out".to_string(),
        net_target: String::new(),
        net_rbl_no_ipv6: String::new(),
        net_rbl_clean: String::new(),
        net_rbl_listed: String::new(),
        net_rbl_clean_zones: String::new(),
        net_rbl_no_answer: String::new(),
    }
}

fn cards(output: &str) -> Vec<NetToolCard> {
    traceroute_cards("example.com", output, print_number, &messages())
}

fn chars(s: &str) -> Vec<char> {
    s.chars().collect()
}

#[test]
fn posix_traceroute_hops() {
    let out = "traceroute to example.com (93.184.216.34), 20 hops max\n\
 1  192.168.0.1  0.512 ms\n\
 2  * \n\
 3  93.184.216.34  11.402 ms\n";
    let hops = parse_traceroute(out);
    assert_eq!(hops.len(), 3);
    assert_eq!(hops[0].hosts, vec!["192.168.0.1"]);
    assert!((value(&hops[0].times_ms[0]) - 0.512).abs() < 0.001);
    assert!(hops[1].hosts.is_empty(), "a silent hop keeps its slot");
    assert_eq!(hops[2].hosts, vec!["93.184.216.34"]);
}

#[test]
fn windows_traceroute_hops() {
    let out = "Tracing route to example.com [93.184.216.34]\r\n\
over a maximum of 20 hops:\r\n\r\n\
  1     1 ms    <1 ms     1 ms  192.168.0.1\r\n\
  2     *        *        *     Request timed out.\r\n\
  3    11 ms    12 ms    11 ms  93.184.216.34\r\n";
    let hops = parse_traceroute(out);
    assert_eq!(hops.len(), 3);
    assert_eq!(hops[0].hosts, vec!["192.168.0.1"]);
    assert_eq!(values(&hops[0]), vec![1.0, 0.0, 1.0]);
    // "Request timed out." is prose, not three routers.
    assert!(hops[1].hosts.is_empty());
    assert_eq!(hops[2].times_ms.len(), 3);
    assert_eq!(hops[2].hosts, vec!["93.184.216.34"]);
}

#[test]
fn a_hop_that_resolved_a_name_keeps_both() {
    let out = " 1  gw.example.com (192.168.0.1)  0.512 ms\n";
    let hops = parse_traceroute(out);
    assert_eq!(hops[0].hosts, vec!["gw.example.com", "192.168.0.1"]);
}

#[test]
fn header_lines_are_not_hops() {
    let out = "traceroute to example.com (93.184.216.34), 20 hops max, 60 byte packets\n";
    assert!(parse_traceroute(out).is_empty());
}

#[test]
fn a_host_is_named_once() {
    let hops = parse_traceroute("7 10.0.0.1 1 ms 10.0.0.2 2ms (10.0.0.1) <3ms fe80::1 4 ms\n");
    assert_eq!(hops.len(), 1);
    assert_eq!(hops[0].index, 7);
    assert_eq!(hops[0].hosts, vec!["10.0.0.1", "10.0.0.2", "fe80::1"]);
    assert_eq!(values(&hops[0]), vec![1.0, 2.0, 0.0, 4.0]);
}

#[test]
fn a_number_without_its_unit_is_no_time() {
    let hops = parse_traceroute("3 65000 10.0.0.1 12 13 ms !H ms\n");
    assert_eq!(hops[0].hosts, vec!["10.0.0.1"]);
    assert_eq!(values(&hops[0]), vec![13.0]);
}

#[test]
fn a_line_needs_a_hop_number() {
    assert!(parse_traceroute("").is_empty());
    assert!(parse_traceroute("\n\n  \n").is_empty());
    assert!(parse_traceroute("-1 10.0.0.1\n").is_empty());
    assert!(parse_traceroute("4294967296 10.0.0.1\n").is_empty());
    assert!(parse_traceroute("1.0 10.0.0.1\n").is_empty());
    let hops = parse_traceroute("+1\n4294967295 10.0.0.1\r\n");
    assert_eq!(hops.iter().map(|h| h.index).collect::<Vec<u32>>(), vec![1, u32::MAX]);
    assert!(hops[0].hosts.is_empty() && hops[0].times_ms.is_empty());
}

#[test]
fn time_tokens_take_one_token_or_two() {
    let ms = chars("ms");
    let read = |token: &str, next: Option<&[char]>| {
        parse_time_token(&chars(token), next).map(|(time, n)| (value(&time), n))
    };
    assert_eq!(read("1ms", None), Some((1.0, 1)));
    assert_eq!(read("0.512", Some(&ms)), Some((0.512, 2)));
    assert_eq!(read("<1", Some(&ms)), Some((0.0, 2)));
    assert_eq!(read("<1ms", Some(&ms)), Some((0.0, 1)));
    assert_eq!(read("1", None), None);
    assert_eq!(read("1", Some(&chars("MS"))), None);
    assert_eq!(read("ms", Some(&ms)), None);
    assert_eq!(read("<", Some(&ms)), None);
    assert_eq!(read("<<1", Some(&ms)), None);
    assert_eq!(read("", Some(&ms)), None);
}

#[test]
fn a_hop_renders_on_one_line() {
    let render = |line: &str| {
        let hops = parse_traceroute(line);
        let times: Vec<String> = hops[0].times_ms.iter().map(print_time).collect();
        hops[0].render(&times)
    };
    assert_eq!(render("2 * * *"), " 2   *");
    assert_eq!(render("12 1 ms"), "12   *");
    assert_eq!(render("123 10.0.0.1"), "123   10.0.0.1");
    assert_eq!(render("0 a.example.com (10.0.0.1) 1.25 ms <1 ms"),
        " 0   a.example.com, 10.0.0.1   1.2 ms  0.0 ms");
}

#[test]
fn the_path_verdict_follows_the_silent_hops() {
    let status = |out: &str| path_status(&parse_traceroute(out));
    assert_eq!(status("1 *\n2 *\n"), CardStatus::Bad);
    assert_eq!(status("1 10.0.0.1\n2 *\n"), CardStatus::Warn);
    assert_eq!(status("1 10.0.0.1\n2 10.0.0.2\n"), CardStatus::Good);
}

#[test]
fn the_path_command_follows_the_platform() {
    let posix = traceroute_command("example.com", false);
    assert_eq!(posix.program, "traceroute");
    assert_eq!(posix.args, vec!["-n", "-q", "1", "-w", "2", "-m", "20", "example.com"]);
    assert_eq!(posix.budget_secs, 90);
    let windows = traceroute_command("example.com", true);
    assert_eq!(windows.program, "tracert");
    assert_eq!(windows.args, vec!["-d", "-h", "20", "-w", "2000", "example.com"]);
    assert_eq!(windows.budget_secs, 90);
}

#[test]
fn a_path_is_shown_above_the_raw_output() {
    let out = "traceroute to example.com\n 1  192.168.0.1  0.512 ms\n 2  * \n";
    let cards = cards(out);
    assert_eq!(cards.len(), 2);
    assert_eq!(cards[0].title, "example.com   2 hops, {n}");
    assert_eq!(cards[0].lines, vec![" 1   192.168.0.1   0.5 ms", " 2   *"]);
    assert_eq!(cards[0].status, Some(CardStatus::Warn));
    assert_eq!(cards[0].raw.as_deref(), Some(out));
    assert_eq!(cards[1].title, "Raw output");
    assert_eq!(cards[1].lines.len(), 3);
    assert_eq!(cards[1].raw.as_deref(), Some(out));
}

#[test]
fn without_hops_the_raw_output_stands_alone() {
    let cards = cards("example.com: Name or service not known\n");
    assert_eq!(cards.len(), 1);
    assert_eq!(cards[0].title, "Raw output");
    assert_eq!(cards[0].status, None);
}

#[test]
fn a_missing_traceroute_is_answered_by_a_hint() {
    let answer = |windows| {
        probe_traceroute("h", ToolRun::Missing, windows, print_number, &messages())
    };
    let posix = answer(false);
    assert_eq!(posix.len(), 1);
    assert_eq!(posix[0].title, "Not installed");
    assert_eq!(posix[0].lines, vec!["traceroute: not found", "install traceroute"]);
    assert_eq!(posix[0].status, Some(CardStatus::Bad));
    assert_eq!(answer(true)[0].lines, vec!["tracert: not found", "check PATH"]);
}

#[test]
fn a_finished_traceroute_is_answered_by_its_output() {
    let run = ToolRun::Finished {
        stdout: b"1 10.0.0.1 1 ms\n".to_vec(),
        stderr: b"\nnote\n".to_vec(),
    };
    let answer = probe_traceroute("example.com", run, false, print_number, &messages());
    assert_eq!(answer, cards("1 10.0.0.1 1 ms\n\n\nnote"));
}

#[test]
fn hops_of_joined_texts_follow_each_other() {
    for a in ["", "1 10.0.0.1", "1 10.0.0.1\n", "1 10.0.0.1\r", "head\n1 *\n2 10.0.0.2 1 ms"] {
        for b in ["", "3 *", "tail", "3 10.0.0.3 2ms\r\n4 *\n"] {
            let mut apart = parse_traceroute(a);
            apart.extend(parse_traceroute(b));
            assert_eq!(parse_traceroute(&format!("{a}\n{b}")), apart);
        }
    }
}

#[test]
fn hosts_stand_in_the_order_of_their_line() {
    let hops = parse_traceroute("1 (b.example.com) 9.5 10.0.0.2 1 ms a.example.com b.example.com");
    assert_eq!(hops[0].hosts, vec!["b.example.com", "10.0.0.2", "a.example.com"]);
}

#[test]
fn a_time_below_the_resolution_prints_as_zero() {
    let cards = cards("1 <1 ms 2.26 ms 10.0.0.1\n");
    assert_eq!(cards[0].lines, vec![" 1   10.0.0.1   0.0 ms  2.3 ms"]);
}
