use cove::events::{latest_by_pane, purge_targets, EventRecord};
use cove::state::{state_from_str, WindowState};
use cove::tail::{last_nonempty_line, tail_start};


/// The last line of a log file with `content`, read the way the tool reads it.
fn read_last_line(content: &str) -> Option<String> {
    let bytes = content.as_bytes();
    let start = tail_start(bytes.len() as u64) as usize;
    let tail = String::from_utf8_lossy(&bytes[start..]).to_string();
    last_nonempty_line(&tail, start > 0)
}

/// Decodes one event line: `state`, `cwd` and `ts` are required, `pane_id`
/// defaults to empty.
fn decode(line: &str) -> Option<EventRecord> {
    let v: serde_json::Value = serde_json::from_str(line).ok()?;
    let obj = v.as_object()?;
    let state = obj.get("state")?.as_str()?.to_string();
    let cwd = obj.get("cwd")?.as_str()?.to_string();
    let ts = obj.get("ts")?.as_u64()?;
    let pane_id = match obj.get("pane_id") {
        Some(p) => p.as_str()?.to_string(),
        None => String::new(),
    };
    Some(EventRecord { state, cwd, pane_id, ts })
}

fn last_record(content: &str) -> Option<EventRecord> {
    read_last_line(content).and_then(|l| decode(&l))
}

fn records_of(files: &[&str]) -> Vec<EventRecord> {
    files.iter().filter_map(|c| last_record(c)).collect()
}



#[test]
fn test_read_last_line_single() {
    let content = "{\"state\":\"working\",\"cwd\":\"/tmp\",\"ts\":1000}\n";
    let line = read_last_line(content).unwrap();
    assert!(line.contains("\"state\":\"working\""));
}

#[test]
fn test_read_last_line_multiple() {
    let content = "{\"state\":\"working\",\"cwd\":\"/tmp\",\"ts\":1000}\n{\"state\":\"idle\",\"cwd\":\"/tmp\",\"ts\":1001}\n";
    let line = read_last_line(content).unwrap();
    assert!(line.contains("\"state\":\"idle\""));
}

#[test]
fn test_read_last_line_empty() {
    assert!(read_last_line("").is_none());
}

#[test]
fn test_load_latest_events() {
    let a = "{\"state\":\"working\",\"cwd\":\"/project-a\",\"pane_id\":\"%0\",\"ts\":1000}\n{\"state\":\"idle\",\"cwd\":\"/project-a\",\"pane_id\":\"%0\",\"ts\":1001}\n";
    let b = "{\"state\":\"asking\",\"cwd\":\"/project-b\",\"pane_id\":\"%3\",\"ts\":2000}\n";
    let events = latest_by_pane(&records_of(&[a, b]));
    assert_eq!(events.len(), 2);
    assert_eq!(events.get("%0").unwrap(), "idle");
    assert_eq!(events.get("%3").unwrap(), "asking");
}

#[test]
fn test_same_cwd_different_panes() {
    let a = "{\"state\":\"working\",\"cwd\":\"/same/dir\",\"pane_id\":\"%0\",\"ts\":1000}\n";
    let b = "{\"state\":\"idle\",\"cwd\":\"/same/dir\",\"pane_id\":\"%3\",\"ts\":1000}\n";
    let events = latest_by_pane(&records_of(&[a, b]));
    assert_eq!(events.len(), 2);
    assert_eq!(events.get("%0").unwrap(), "working");
    assert_eq!(events.get("%3").unwrap(), "idle");
}

#[test]
fn test_load_latest_events_deduplicates_by_timestamp() {
    let stale = "{\"state\":\"idle\",\"cwd\":\"/old\",\"pane_id\":\"%0\",\"ts\":1000}\n";
    let current = "{\"state\":\"working\",\"cwd\":\"/new\",\"pane_id\":\"%0\",\"ts\":2000}\n";
    let events = latest_by_pane(&records_of(&[stale, current]));
    assert_eq!(events.len(), 1);
    assert_eq!(events.get("%0").unwrap(), "working");
}

#[test]
fn test_events_without_pane_id_ignored() {
    let old = "{\"state\":\"working\",\"cwd\":\"/project\",\"ts\":1000}\n";
    let events = latest_by_pane(&records_of(&[old]));
    assert!(events.is_empty());
}

#[test]
fn test_load_latest_events_empty_dir() {
    let events = latest_by_pane(&Vec::new());
    assert!(events.is_empty());
}

#[test]
fn test_state_from_str() {
    assert_eq!(state_from_str("working"), WindowState::Working);
    assert_eq!(state_from_str("idle"), WindowState::Idle);
    assert_eq!(state_from_str("asking"), WindowState::Asking);
    assert_eq!(state_from_str("unknown"), WindowState::Fresh);
}

#[test]
fn test_purge_events_for_pane() {
    let files = [
        ("old-session.jsonl", "{\"state\":\"asking\",\"cwd\":\"/project\",\"pane_id\":\"%3\",\"ts\":1000}\n"),
        ("active-session.jsonl", "{\"state\":\"idle\",\"cwd\":\"/project\",\"pane_id\":\"%0\",\"ts\":2000}\n"),
        ("another-old.jsonl", "{\"state\":\"idle\",\"cwd\":\"/other\",\"pane_id\":\"%3\",\"ts\":500}\n"),
    ];
    let lasts: Vec<Option<EventRecord>> = files.iter().map(|(_, c)| last_record(c)).collect();
    let purge = purge_targets(&lasts, "%3");
    let remaining: Vec<&str> = files
        .iter()
        .zip(purge.iter())
        .filter(|(_, p)| !**p)
        .map(|((name, _), _)| *name)
        .collect();
    assert_eq!(remaining.len(), 1);
    assert!(remaining[0].contains("active-session"));
}
