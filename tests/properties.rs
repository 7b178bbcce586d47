use cove::events::{latest_by_pane, purge_targets, EventRecord};
use cove::state::{is_shell_command, StateDetector, WindowState};
use cove::tail::{last_nonempty_line, tail_start, trim_text};
use cove::tmux::{
    get_claude_pane_id, list_pane_commands, list_window_names, list_windows, parse_u32, PaneInfo,
    WindowInfo,
};

fn rec(state: &str, pane_id: &str, ts: u64) -> EventRecord {
    EventRecord { state: state.to_string(), cwd: "/work".to_string(), pane_id: pane_id.to_string(), ts }
}

fn window(index: u32) -> WindowInfo {
    WindowInfo { index, name: format!("w{index}"), is_active: false, pane_path: "/tmp".to_string() }
}

fn pane(window_index: u32, command: &str, pane_id: &str) -> PaneInfo {
    PaneInfo { window_index, command: command.to_string(), pane_id: pane_id.to_string() }
}

fn tail_line_of(content: &str) -> Option<String> {
    let bytes = content.as_bytes();
    let start = tail_start(bytes.len() as u64) as usize;
    let tail = String::from_utf8_lossy(&bytes[start..]).to_string();
    last_nonempty_line(&tail, start > 0)
}

/// Decodes one event line: `state` and `ts` are taken, `pane_id` defaults
/// to empty.
fn decode(line: &str) -> Option<EventRecord> {
    let v: serde_json::Value = serde_json::from_str(line).ok()?;
    let obj = v.as_object()?;
    let state = obj.get("state")?.as_str()?.to_string();
    let ts = obj.get("ts")?.as_u64()?;
    let pane_id = match obj.get("pane_id") {
        Some(p) => p.as_str()?.to_string(),
        None => String::new(),
    };
    Some(EventRecord { state, cwd: String::new(), pane_id, ts })
}

#[test]
fn no_logs_gives_empty_map_and_fresh_windows() {
    let events = latest_by_pane(&Vec::new());
    assert!(events.is_empty());
    assert_eq!(events.len(), 0);
    let mut d = StateDetector::new();
    let states = d.detect(
        &vec![window(1), window(2)],
        &vec![pane(1, "agent", "%0"), pane(2, "node", "%1")],
        &events,
    );
    assert_eq!(states.len(), 2);
    assert_eq!(states[&1], WindowState::Fresh);
    assert_eq!(states[&2], WindowState::Fresh);
}

#[test]
fn newer_timestamp_wins_in_either_order() {
    let forward = latest_by_pane(&vec![rec("working", "%0", 1), rec("idle", "%0", 2)]);
    let backward = latest_by_pane(&vec![rec("idle", "%0", 2), rec("working", "%0", 1)]);
    assert_eq!(forward.get("%0").unwrap(), "idle");
    assert_eq!(backward.get("%0").unwrap(), "idle");
}

#[test]
fn equal_timestamps_keep_the_later_record() {
    let events = latest_by_pane(&vec![rec("working", "%0", 5), rec("asking", "%0", 5)]);
    assert_eq!(events.get("%0").unwrap(), "asking");
}

#[test]
fn empty_pane_id_is_no_key_and_changes_nothing() {
    let without = latest_by_pane(&vec![rec("working", "%1", 10)]);
    let with = latest_by_pane(&vec![rec("idle", "", 99), rec("working", "%1", 10), rec("asking", "", 100)]);
    assert_eq!(with.len(), 1);
    assert!(with.get("").is_none());
    assert_eq!(with.get("%1").unwrap(), without.get("%1").unwrap());
}

#[test]
fn purge_selects_exactly_matching_logs_and_is_idempotent() {
    let lasts = vec![Some(rec("idle", "%3", 1)), None, Some(rec("idle", "%0", 2)), Some(rec("working", "", 3)), Some(rec("asking", "%3", 4))];
    let first = purge_targets(&lasts, "%3");
    assert_eq!(first, vec![true, false, false, false, true]);
    let left: Vec<Option<EventRecord>> = lasts
        .into_iter()
        .zip(first.iter())
        .filter(|(_, p)| !**p)
        .map(|(l, _)| l)
        .collect();
    assert_eq!(left.len(), 3);
    assert_eq!(purge_targets(&left, "%3"), vec![false, false, false]);
}

#[test]
fn purge_with_empty_pane_id_keeps_legacy_logs() {
    let lasts = vec![Some(rec("working", "", 3))];
    assert_eq!(purge_targets(&lasts, ""), vec![false]);
}

#[test]
fn purge_without_match_removes_nothing() {
    let lasts = vec![Some(rec("idle", "%0", 2)), None, Some(rec("working", "%1", 3))];
    assert_eq!(purge_targets(&lasts, "%9"), vec![false, false, false]);
}

#[test]
fn shell_overrides_working_event() {
    let events = latest_by_pane(&vec![rec("working", "%0", 1), rec("working", "%1", 1), rec("working", "%2", 1)]);
    let mut d = StateDetector::new();
    let states = d.detect(
        &vec![window(0), window(1), window(2), window(3)],
        &vec![pane(0, "zsh", "%0"), pane(1, "bash", "%1"), pane(2, "fish", "%2"), pane(3, "agent", "%3")],
        &events,
    );
    assert_eq!(states[&0], WindowState::Done);
    assert_eq!(states[&1], WindowState::Done);
    assert_eq!(states[&2], WindowState::Done);
    assert_eq!(states[&3], WindowState::Fresh);
}

#[test]
fn window_without_pane_counts_as_shell() {
    let events = latest_by_pane(&vec![rec("working", "%0", 1)]);
    let mut d = StateDetector::new();
    let states = d.detect(&vec![window(4)], &vec![pane(1, "agent", "%0")], &events);
    assert_eq!(states[&4], WindowState::Done);
}

#[test]
fn round_trip_two_records_in_one_file_gives_idle() {
    let content = "{\"state\":\"working\",\"pane_id\":\"%0\",\"ts\":1000}\n{\"state\":\"idle\",\"pane_id\":\"%0\",\"ts\":1001}\n";
    let line = tail_line_of(content).unwrap();
    assert_eq!(line, "{\"state\":\"idle\",\"pane_id\":\"%0\",\"ts\":1001}");
    let events = latest_by_pane(&vec![decode(&line).unwrap()]);
    let mut d = StateDetector::new();
    let states = d.detect(&vec![window(1), window(2)], &vec![pane(1, "agent", "%0"), pane(2, "node", "%0")], &events);
    assert_eq!(states[&1], WindowState::Idle);
    assert_eq!(states[&2], WindowState::Idle);
}

#[test]
fn two_files_two_panes() {
    let a = "{\"state\":\"working\",\"pane_id\":\"%0\",\"ts\":1000}";
    let b = "{\"state\":\"asking\",\"pane_id\":\"%3\",\"ts\":2000}";
    let la = tail_line_of(a).unwrap();
    let lb = tail_line_of(b).unwrap();
    assert_eq!(la, a);
    assert_eq!(lb, b);
    let events = latest_by_pane(&vec![decode(&la).unwrap(), decode(&lb).unwrap()]);
    assert_eq!(events.len(), 2);
    assert_eq!(events.get("%0").unwrap(), "working");
    assert_eq!(events.get("%3").unwrap(), "asking");
}

#[test]
fn long_file_tail_discards_partial_line() {
    let first = "{\"state\":\"idle\",\"pane_id\":\"%0\",\"ts\":1}";
    let other = "{\"state\":\"working\",\"pane_id\":\"%1\",\"ts\":2}";
    let mut content = String::new();
    content.push_str(first);
    content.push('\n');
    while content.len() < 2048 - other.len() - 1 {
        content.push_str(other);
        content.push('\n');
    }
    let last = "{\"state\":\"asking\",\"pane_id\":\"%2\",\"ts\":3}";
    content.push_str(last);
    content.push('\n');
    assert!(content.len() > 1024);
    assert_eq!(tail_line_of(&content).unwrap(), last);
}

#[test]
fn tail_start_offsets() {
    assert_eq!(tail_start(0), 0);
    assert_eq!(tail_start(1024), 0);
    assert_eq!(tail_start(1025), 1);
    assert_eq!(tail_start(2048), 1024);
}

#[test]
fn partial_first_line_is_discarded() {
    assert_eq!(last_nonempty_line("tial\n", true), None);
    assert_eq!(last_nonempty_line("only part", true), None);
    assert_eq!(last_nonempty_line("tial\n  full \n\n  \n", true).unwrap(), "full");
    assert_eq!(last_nonempty_line("whole\n", false).unwrap(), "whole");
    assert_eq!(last_nonempty_line("a\r\n b\u{a0}\n \t", false).unwrap(), "b");
}

#[test]
fn trimming() {
    assert_eq!(trim_text("  %5 \n"), "%5");
    assert_eq!(trim_text(" \t\n"), "");
    assert_eq!(get_claude_pane_id("%12\n"), "%12");
}

#[test]
fn decimal_parsing() {
    assert_eq!(parse_u32("0"), Some(0));
    assert_eq!(parse_u32("+17"), Some(17));
    assert_eq!(parse_u32("4294967295"), Some(4294967295));
    assert_eq!(parse_u32("4294967296"), None);
    assert_eq!(parse_u32(""), None);
    assert_eq!(parse_u32("+"), None);
    assert_eq!(parse_u32("-1"), None);
    assert_eq!(parse_u32("1a"), None);
}

#[test]
fn window_listing() {
    let out = "1|api|1|/home/u/api\n2|web|0|/home/u/a|b\nbroken line\nx|odd|1|/\n";
    let ws = list_windows(out);
    assert_eq!(ws.len(), 3);
    assert_eq!(ws[0].index, 1);
    assert_eq!(ws[0].name, "api");
    assert!(ws[0].is_active);
    assert_eq!(ws[0].pane_path, "/home/u/api");
    assert_eq!(ws[1].index, 2);
    assert!(!ws[1].is_active);
    assert_eq!(ws[1].pane_path, "/home/u/a|b");
    assert_eq!(ws[2].index, 0);
}

#[test]
fn window_names() {
    assert_eq!(list_window_names("a\r\nb\n\nc"), vec!["a".to_string(), "b".to_string(), String::new(), "c".to_string()]);
    assert!(list_window_names("").is_empty());
}

#[test]
fn pane_listing_keeps_assistant_panes() {
    let out = "1|0|zsh|%1\n1|1|agent|%2\n2|1|zsh|%5\n2|2|cove|%6\nshort|1\n";
    let ps = list_pane_commands(out);
    assert_eq!(ps.len(), 2);
    assert_eq!(ps[0].window_index, 1);
    assert_eq!(ps[0].command, "agent");
    assert_eq!(ps[0].pane_id, "%2");
    assert_eq!(ps[1].window_index, 2);
    assert_eq!(ps[1].command, "zsh");
}

#[test]
fn shells_recognised() {
    assert!(is_shell_command("zsh"));
    assert!(is_shell_command("bash"));
    assert!(is_shell_command("fish"));
    assert!(!is_shell_command("agent"));
    assert!(!is_shell_command("sh"));
}
