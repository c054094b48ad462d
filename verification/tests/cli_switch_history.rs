use wb_switch_core::cli_switch_history::{
    account_at, append, history_content, history_path, record_lines, SwitchRecord,
    HISTORY_FILE_NAME, HISTORY_MAX_AGE_MS, HISTORY_MAX_ENTRIES,
};
use wb_switch_core::json::parse_json;
use wb_switch_core::path::{FilePath, PathStyle};

fn appended(records: Vec<SwitchRecord>, id: &str, at: i64) -> Vec<SwitchRecord> {
    let before = records.clone();
    append(records, id, at).unwrap_or(before)
}

fn record(at: i64, id: &str) -> SwitchRecord {
    SwitchRecord {
        at,
        account_id: id.to_string(),
    }
}

#[test]
fn append_skips_same_account_but_keeps_round_trips() {
    let history = appended(Vec::new(), "acc-a", 1_000);
    let history = appended(history, "acc-a", 2_000);
    assert_eq!(history.len(), 1);
    let history = appended(history, "acc-b", 3_000);
    let history = appended(history, "acc-a", 4_000);
    assert_eq!(history.len(), 3);
    assert_eq!(account_at(&history, 4_000).as_deref(), Some("acc-a"));
    assert_eq!(account_at(&history, 3_500).as_deref(), Some("acc-b"));
    assert_eq!(account_at(&history, 2_500).as_deref(), Some("acc-a"));
}

#[test]
fn account_at_handles_boundaries_and_missing_files() {
    let history = appended(Vec::new(), "acc-a", 1_000);
    let history = appended(history, "acc-b", 2_000);
    assert_eq!(account_at(&history, 1_000).as_deref(), Some("acc-a"));
    assert_eq!(account_at(&history, 1_999).as_deref(), Some("acc-a"));
    assert_eq!(account_at(&history, 999), None);
    assert_eq!(account_at(&history, 9_999).as_deref(), Some("acc-b"));
    assert_eq!(account_at(&Vec::new(), 9_999), None);
}

#[test]
fn account_at_uses_the_latest_timestamp_not_file_order() {
    let history = vec![record(3000, "acc-new"), record(1000, "acc-old")];
    assert_eq!(account_at(&history, 2_000).as_deref(), Some("acc-old"));
    assert_eq!(account_at(&history, 3_000).as_deref(), Some("acc-new"));
    let twice = vec![record(1000, "first"), record(1000, "second")];
    assert_eq!(account_at(&twice, 1_000).as_deref(), Some("second"));
}

#[test]
fn bad_lines_are_ignored_and_dropped_on_the_next_write() {
    let content = "not-json\n{\"at\":1000,\"accountId\":\"acc-a\"}\n{\"at\":20\n\n";
    let mut history = Vec::new();
    for line in record_lines(content) {
        if let Some(root) = parse_json(&line) {
            if let (Some(at), Some(id)) = (root.get_i64("at"), root.get_text("accountId")) {
                history.push(record(at, &id));
            }
        }
    }
    assert_eq!(account_at(&history, 9_999).as_deref(), Some("acc-a"));
    let history = appended(history, "acc-b", 2_000);
    assert_eq!(account_at(&history, 9_999).as_deref(), Some("acc-b"));
    assert_eq!(history.len(), 2);
}

#[test]
fn append_prunes_expired_and_excess_records() {
    let history = appended(Vec::new(), "acc-old", 0);
    let at = HISTORY_MAX_AGE_MS + 1;
    let mut history = appended(history, "acc-new", at);
    assert_eq!(history.len(), 1);
    assert_eq!(account_at(&history, at).as_deref(), Some("acc-new"));
    for index in 0..HISTORY_MAX_ENTRIES + 10 {
        history = appended(history, &format!("acc-{index}"), at + index as i64 + 1);
    }
    assert_eq!(history.len(), HISTORY_MAX_ENTRIES);
    assert_eq!(
        account_at(&history, at + 1_000_000).as_deref(),
        Some(format!("acc-{}", HISTORY_MAX_ENTRIES + 9).as_str())
    );
    assert!(history.windows(2).all(|pair| pair[0].at <= pair[1].at));
}

#[test]
fn records_are_put_in_the_order_of_time() {
    let history = append(vec![record(5_000, "late"), record(1_000, "early")], "mid", 3_000)
        .expect("a new record");
    let order: Vec<i64> = history.iter().map(|r| r.at).collect();
    assert_eq!(order, vec![1_000, 3_000, 5_000]);
    assert_eq!(append(Vec::new(), " x ", i64::MIN).expect("written")[0].account_id, "x");
}

#[test]
fn empty_account_id_is_a_no_op() {
    assert!(append(Vec::new(), "  ", 1_000).is_none());
}

#[test]
fn history_path_lives_in_the_store_directory() {
    let store = FilePath::new("/home/u/.wb-switch", PathStyle::Unix);
    assert!(history_path(&store).text.ends_with(HISTORY_FILE_NAME));
    assert_eq!(
        history_path(&store).text,
        "/home/u/.wb-switch/cli_switch_history.jsonl"
    );
}

#[test]
fn history_content_ends_each_line() {
    assert_eq!(
        history_content(&vec!["{\"at\":1000,\"accountId\":\"acc-a\"}".to_string()]),
        "{\"at\":1000,\"accountId\":\"acc-a\"}\n"
    );
    assert_eq!(history_content(&Vec::new()), "");
}
