use net_tools::card::{raw_card, CardStatus, Messages, NetToolCard};
use net_tools::tool::{combine_outputs, missing_hint, tool_output, tool_result, ToolRun};

fn messages() -> Messages {
    Messages {
        net_ping_summary: String::new(),
        net_ping_rtt: String::new(),
        net_trace_hops: String::new(),
        net_raw_output: "Raw output".to_string(),
        net_tool_missing_binary: "Not installed".to_string(),
        net_tool_missing_binary_desc: "not found".to_string(),
        net_tool_missing_windows: "check PATH".to_string(),
        net_tool_missing_traceroute: "install traceroute".to_string(),
        net_tool_missing_ping: "install iputils".to_string(),
        net_err_timeout: "Timed out".to_string(),
        net_target: String::new(),
        net_rbl_no_ipv6: String::new(),
        net_rbl_clean: String::new(),
        net_rbl_listed: String::new(),
        net_rbl_clean_zones: String::new(),
        net_rbl_no_answer: String::new(),
    }
}

fn result(program: &str, run: ToolRun, windows: bool) -> Result<String, NetToolCard> {
    tool_result(program, run, 25, windows, &messages())
}

#[test]
fn the_hint_names_the_package() {
    let m = messages();
    assert_eq!(missing_hint("traceroute", false, &m), "install traceroute");
    assert_eq!(missing_hint("ping", false, &m), "install iputils");
    assert_eq!(missing_hint("tracert", false, &m), "install iputils");
    assert_eq!(missing_hint("traceroute", true, &m), "check PATH");
    assert_eq!(missing_hint("ping", true, &m), "check PATH");
}

#[test]
fn a_missing_tool_is_a_card() {
    let card = result("ping", ToolRun::Missing, false).unwrap_err();
    assert_eq!(card.title, "Not installed");
    assert_eq!(card.lines, vec!["ping: not found", "install iputils"]);
    assert_eq!(card.status, Some(CardStatus::Bad));
    assert_eq!(card.raw, None);
}

#[test]
fn a_failed_tool_is_a_card() {
    let card = result("ping", ToolRun::Failed("denied".to_string()), false).unwrap_err();
    assert_eq!(card.title, "ping");
    assert_eq!(card.lines, vec!["denied"]);
    assert_eq!(card.status, Some(CardStatus::Bad));
}

#[test]
fn a_slow_tool_is_a_card() {
    let card = result("ping", ToolRun::TimedOut, true).unwrap_err();
    assert_eq!(card.title, "ping");
    assert_eq!(card.lines, vec!["Timed out (25s)"]);
    assert_eq!(card.status, Some(CardStatus::Warn));
}

#[test]
fn a_finished_tool_is_its_output() {
    let run = ToolRun::Finished { stdout: b"out\n".to_vec(), stderr: b"err\n".to_vec() };
    assert_eq!(result("ping", run, false), Ok("out\n\nerr".to_string()));
}

#[test]
fn both_outputs_are_kept() {
    let join = |out: &str, err: &str| combine_outputs(out.to_string(), err);
    assert_eq!(join("out", ""), "out");
    assert_eq!(join("out\n", " \n\t"), "out\n");
    assert_eq!(join("", "err \n"), "err");
    assert_eq!(join("", "\n err"), "\n err");
    assert_eq!(join("out", "err\u{a0}\r\n"), "out\nerr");
    assert_eq!(join("", ""), "");
}

#[test]
fn bytes_become_text() {
    assert_eq!(tool_output("größe".as_bytes(), "é".as_bytes()), "größe\né");
    assert_eq!(tool_output(b"a\xffb", b""), "a\u{fffd}b");
    assert_eq!(tool_output(b"", b"\xf0\x9f"), "\u{fffd}");
    assert_eq!(tool_output(b"", b""), "");
}

#[test]
fn the_raw_card_holds_the_output_line_by_line() {
    let card = raw_card("a\r\nb\n\nc", &messages());
    assert_eq!(card.title, "Raw output");
    assert_eq!(card.lines, vec!["a", "b", "", "c"]);
    assert_eq!(card.raw.as_deref(), Some("a\r\nb\n\nc"));
    assert_eq!(card.status, None);
    assert!(raw_card("", &messages()).lines.is_empty());
}

#[test]
fn a_card_is_built_in_steps() {
    let card = NetToolCard::new("t".to_string(), vec!["l".to_string()]);
    assert_eq!((card.status, card.raw.clone()), (None, None));
    let card = card.status(CardStatus::Warn).raw("r".to_string());
    assert_eq!(card.status, Some(CardStatus::Warn));
    assert_eq!(card.raw.as_deref(), Some("r"));
    assert_eq!(card.title, "t");
}
