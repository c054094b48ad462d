use wb_switch_core::cli_switch_history::SwitchRecord;
use wb_switch_core::json::{parse_json, Json};
use wb_switch_core::limit_report::Account;
use wb_switch_core::path::{FilePath, PathStyle};
use wb_switch_core::rate_limit_events::{
    attribute, compact_with, complete_lines, consume_with, drop_expired, has_pending_bytes,
    last_event_at, live_entries, merge_entry, parse_quota_line, pending_lines, quota_event,
    rate_limit_enabled, rotated_lines, session_created_at, session_snapshot_time, should_rotate,
    source_of, state_path, Attributed, CliEvidence, Evidence, HookPayload, HookSource,
    QuotaEvent, State, StoredEntry, COMPACT_AFTER_BYTES, STATE_FILE_NAME,
};
use wb_switch_core::variant::WbVariant;

const UID_A: &str = "f0ae9eeb-8476-4ef5-9a3e-1d6339d545da";
const MESSAGE: &str = "429 您的使用量已超出频率限制，将在 2026-09-17 17:59:27 UTC+8 重置，您也可以切换其他模型继续使用。";

const CLI_SESSION: &str = "01a0aeb3-1f70-7d85-b356-0faa85650c1f";
const OLD_PROCESS_STARTED_AT: i64 = 1_789_637_369_000;
const NEW_PROCESS_STARTED_AT: i64 = 1_789_641_842_256;
const SWITCHED_TO_WKBDTEST_AT: i64 = 1_789_639_230_009;
const SWITCHED_TO_ZHANGJIA_AT: i64 = 1_789_614_030_009;
const EVENT_AT: i64 = 1_789_639_436_000;

fn payload(
    session: &str,
    model: &str,
    transcript: Option<&str>,
    message: Option<&str>,
) -> HookPayload {
    HookPayload {
        transcript_path: transcript.map(str::to_string),
        session_id: Some(session.to_string()),
        model: Some(model.to_string()),
        last_assistant_message: message.map(str::to_string),
    }
}

/// What a hook's line says, field by field.
fn read_payload(line: &str) -> Option<HookPayload> {
    let root = parse_json(line)?;
    Some(HookPayload {
        transcript_path: root.get_text("transcript_path"),
        session_id: root.get_text("session_id"),
        model: root.get_text("model"),
        last_assistant_message: root.get_text("last_assistant_message"),
    })
}

fn stop_line(session: &str, model: &str, transcript: &str) -> String {
    format!(
        "{{\"session_id\":\"{session}\",\"transcript_path\":\"{transcript}\",\"hook_event_name\":\"Stop\",\"model\":\"{model}\",\"last_assistant_message\":\"{MESSAGE}\"}}"
    )
}

fn account(id: &str, uid: Option<&str>) -> Account {
    Account {
        id: Some(id.to_string()),
        uid: uid.map(str::to_string),
        variant: WbVariant::Cn,
    }
}

fn registry(pid: u32, session: &str, started_at: i64) -> String {
    format!("{{\"pid\":{pid},\"sessionId\":\"{session}\",\"startedAt\":{started_at}}}")
}

fn history(entries: &[(i64, &str)]) -> Vec<SwitchRecord> {
    entries
        .iter()
        .map(|(at, id)| SwitchRecord {
            at: *at,
            account_id: id.to_string(),
        })
        .collect()
}

fn active(id: &str) -> Option<String> {
    Some(format!("{{\"activeAccountId\":\"{id}\"}}"))
}

fn evidence(
    registry: Vec<String>,
    head: Option<String>,
    state: Option<String>,
    written: Option<i64>,
    history: Vec<SwitchRecord>,
) -> Evidence {
    Evidence {
        cli: CliEvidence {
            registry,
            transcript_head: head,
            state,
            state_written: written,
            history,
        },
        login: None,
        by_session: None,
    }
}

fn cli_event(session: Option<&str>) -> QuotaEvent {
    QuotaEvent {
        transcript_path: "/home/u/.codebuddy/projects/s.jsonl".to_string(),
        session_id: session.map(str::to_string),
        model: Some("deepseek-v4.1-flash".to_string()),
        reset_at: 1_789_670_683_000,
    }
}

fn cli(evidence: &Evidence, accounts: &[Account], now: i64) -> Option<String> {
    let accounts: Vec<Account> = accounts
        .iter()
        .map(|a| Account {
            id: a.id.clone(),
            uid: a.uid.clone(),
            variant: a.variant,
        })
        .collect();
    attribute(
        &cli_event(Some(CLI_SESSION)),
        HookSource::Cli,
        evidence,
        &accounts,
        now,
    )
}

fn roots() -> Vec<(FilePath, HookSource)> {
    vec![
        (
            FilePath::new("/home/u/.codebuddy", PathStyle::Unix),
            HookSource::Cli,
        ),
        (
            FilePath::new("/home/u/.workbuddy", PathStyle::Unix),
            HookSource::WorkBuddy(WbVariant::Cn),
        ),
        (
            FilePath::new("/home/u/.workbuddy-ai", PathStyle::Unix),
            HookSource::WorkBuddy(WbVariant::Ai),
        ),
    ]
}

/// Reads what is new in the file of events, as it is done each second.
fn consume(
    state: &mut State,
    bytes: &[u8],
    accounts: &Vec<Account>,
    evidence: &dyn Fn(&QuotaEvent) -> Evidence,
    now: i64,
) -> Option<bool> {
    let (lines, consumed) = pending_lines(state, bytes)?;
    let reports = reports(&lines, accounts, evidence, now);
    let mut changed = consume_with(state, &reports, consumed, now);
    if should_rotate(state.offset, Some(bytes.len() as u64)) {
        let tail = rotated_lines(state.offset, bytes);
        let late = self::reports(&tail, accounts, evidence, now);
        changed = compact_with(state, &late, now) || changed;
    }
    drop_expired(state, now);
    Some(changed)
}

fn reports(
    lines: &[String],
    accounts: &Vec<Account>,
    evidence: &dyn Fn(&QuotaEvent) -> Evidence,
    now: i64,
) -> Vec<Attributed> {
    let mut out = Vec::new();
    for line in lines {
        let Some(event) = read_payload(line).and_then(parse_quota_line) else {
            continue;
        };
        let Some(source) = source_of(&event.transcript_path, &roots()) else {
            continue;
        };
        let account_id = attribute(&event, source, &evidence(&event), accounts, now);
        out.push(Attributed { event, account_id });
    }
    out
}

#[test]
fn parses_quota_lines_and_ignores_everything_else() {
    let transcript = Some("/x/.workbuddy/projects/s.jsonl");
    assert!(parse_quota_line(payload("s-1", "m", transcript, Some("已完成。"))).is_none());
    assert!(read_payload("{ not json").is_none());
    assert!(parse_quota_line(payload(
        "s-1",
        "m",
        transcript,
        Some("429 您的使用量已超出频率限制")
    ))
    .is_none());
    assert!(parse_quota_line(payload("s-1", "m", None, Some(MESSAGE))).is_none());
    assert!(parse_quota_line(payload("s-1", "m", transcript, None)).is_none());

    let event = parse_quota_line(payload(
        "s-1",
        "auto",
        transcript,
        Some("429 您的使用量已超出频率限制，将在 2026-09-17 17:59:27 UTC+8 重置"),
    ))
    .expect("a refusal");
    assert_eq!(event.model, None);
    assert_eq!(event.session_id.as_deref(), Some("s-1"));
    assert_eq!(event.reset_at, 1_789_639_167_000);
    for word in ["undefined", "null", "  "] {
        let event = parse_quota_line(payload("s-1", word, transcript, Some(MESSAGE)));
        assert_eq!(event.expect("a refusal").model, None);
    }
    let event = quota_event(payload("s-1", "hy3", transcript, Some(MESSAGE)), Some(7));
    assert_eq!(event.expect("a refusal").reset_at, 7);
}

#[test]
fn source_is_decided_by_transcript_prefix() {
    let roots = roots();
    assert_eq!(
        source_of("/home/u/.codebuddy/projects/p/s.jsonl", &roots),
        Some(HookSource::Cli)
    );
    assert_eq!(
        source_of("/home/u/.workbuddy/projects/p/s.jsonl", &roots),
        Some(HookSource::WorkBuddy(WbVariant::Cn))
    );
    assert_eq!(
        source_of("/home/u/.workbuddy-ai/projects/p/s.jsonl", &roots),
        Some(HookSource::WorkBuddy(WbVariant::Ai))
    );
    assert_eq!(
        source_of(
            "/Users/u/Library/Application Support/CodeBuddyIDE/x.json",
            &roots
        ),
        None
    );
    assert_eq!(source_of("", &roots), None);
    assert_eq!(
        source_of("/home//u/./.codebuddy", &roots),
        Some(HookSource::Cli)
    );
    let windows = vec![(
        FilePath::new("C:\\Users\\u\\.codebuddy", PathStyle::Windows),
        HookSource::Cli,
    )];
    assert_eq!(
        source_of("c:/Users/u/.codebuddy/projects/s.jsonl", &windows),
        Some(HookSource::Cli)
    );
}

#[test]
fn only_complete_lines_are_consumed() {
    let (lines, consumed) = complete_lines(b"{\"a\":1}\n{\"b\"");
    assert_eq!(lines, vec!["{\"a\":1}"]);
    assert_eq!(consumed, 8);
    let (lines, consumed) = complete_lines(b"{\"a\"");
    assert!(lines.is_empty());
    assert_eq!(consumed, 0);
    let (lines, consumed) = complete_lines(b"\n\n{\"a\":1}\n");
    assert_eq!(lines, vec!["{\"a\":1}"]);
    assert_eq!(consumed, 10);
}

#[test]
fn cli_events_are_attributed_to_the_active_account_and_persisted() {
    let session = "01a0ad53-0c95-7767-bd6a-d43356edb644";
    let accounts = vec![account("acc-cli", Some(UID_A))];
    let found = |_: &QuotaEvent| {
        evidence(
            vec![registry(4242, session, 500)],
            None,
            active("acc-cli"),
            Some(900),
            history(&[(500, "acc-cli")]),
        )
    };
    let line = stop_line(session, "deepseek-v4.1-flash", "/home/u/.codebuddy/projects/s.jsonl");
    let mut file = format!("{line}\n");

    let mut state = State::new();
    assert_eq!(
        consume(&mut state, file.as_bytes(), &accounts, &found, 1_000),
        Some(true)
    );
    assert_eq!(state.events.len(), 1);
    assert_eq!(state.events[0].account_id, "acc-cli");
    assert_eq!(state.events[0].model.as_deref(), Some("deepseek-v4.1-flash"));
    assert_eq!(state.last_event_at, Some(1_000));
    assert!(state.offset > 0);
    assert_eq!(live_entries(&mut state, 1_100).len(), 1);

    assert_eq!(
        consume(&mut state, file.as_bytes(), &accounts, &found, 2_000),
        None
    );
    assert_eq!(state.events.len(), 1);

    file.push_str(&format!("{line}\n"));
    assert_eq!(
        consume(&mut state, file.as_bytes(), &accounts, &found, 3_000),
        Some(true)
    );
    assert_eq!(state.events.len(), 1);
    assert_eq!(state.events[0].hit_count, 2);
    assert_eq!(state.events[0].first_seen_at, 1_000);
}

#[test]
fn session_snapshot_prefers_the_latest_holder_before_the_event() {
    let mut files = vec![
        registry(9312, CLI_SESSION, OLD_PROCESS_STARTED_AT),
        registry(60705, CLI_SESSION, NEW_PROCESS_STARTED_AT),
    ];
    let session = Some(CLI_SESSION.to_string());
    assert_eq!(
        session_snapshot_time(&files, &session, EVENT_AT),
        Some(OLD_PROCESS_STARTED_AT)
    );
    assert_eq!(
        session_snapshot_time(&files, &session, NEW_PROCESS_STARTED_AT + 1_000),
        Some(NEW_PROCESS_STARTED_AT)
    );
    assert_eq!(
        session_snapshot_time(&files, &Some("other".to_string()), EVENT_AT),
        None
    );
    assert_eq!(session_snapshot_time(&files, &None, EVENT_AT), None);
    assert_eq!(session_snapshot_time(&Vec::new(), &session, EVENT_AT), None);
    files.push("not-json".to_string());
    assert_eq!(
        session_snapshot_time(&files, &session, EVENT_AT),
        Some(OLD_PROCESS_STARTED_AT)
    );
}

#[test]
fn session_snapshot_falls_back_to_the_transcript_first_line() {
    let head = format!(
        "{{\"type\":\"session-meta\",\"sessionId\":\"{CLI_SESSION}\",\"timestamp\":{}}}\n",
        OLD_PROCESS_STARTED_AT + 769
    );
    assert_eq!(session_created_at(&head), Some(OLD_PROCESS_STARTED_AT + 769));
    let known = [account("acc-cli", Some(UID_A)), account("acc-other", None)];
    let with_head = |head: Option<String>| {
        evidence(
            vec!["{".to_string()],
            head,
            active("acc-other"),
            Some(SWITCHED_TO_WKBDTEST_AT),
            history(&[(OLD_PROCESS_STARTED_AT + 769, "acc-cli")]),
        )
    };
    assert_eq!(
        cli(&with_head(Some(head)), &known, EVENT_AT).as_deref(),
        Some("acc-cli")
    );
    assert_eq!(cli(&with_head(None), &known, EVENT_AT), None);
}

#[test]
fn old_process_event_after_switch_uses_the_pre_switch_account() {
    let e = evidence(
        vec![registry(9312, CLI_SESSION, OLD_PROCESS_STARTED_AT)],
        None,
        active("acc-wkbdtest"),
        Some(SWITCHED_TO_WKBDTEST_AT),
        history(&[
            (SWITCHED_TO_ZHANGJIA_AT, "acc-zhangjia"),
            (SWITCHED_TO_WKBDTEST_AT, "acc-wkbdtest"),
        ]),
    );
    let known = [account("acc-zhangjia", None), account("acc-wkbdtest", None)];
    assert_eq!(cli(&e, &known, EVENT_AT).as_deref(), Some("acc-zhangjia"));
}

#[test]
fn new_process_event_after_the_last_switch_uses_the_state_account() {
    let mtime = SWITCHED_TO_WKBDTEST_AT;
    let e = evidence(
        vec![registry(60705, CLI_SESSION, mtime)],
        None,
        active("acc-wkbdtest"),
        Some(mtime),
        Vec::new(),
    );
    assert_eq!(
        cli(&e, &[account("acc-wkbdtest", None)], mtime + 1_000).as_deref(),
        Some("acc-wkbdtest")
    );
}

#[test]
fn new_process_with_complete_history_uses_the_new_account() {
    let e = evidence(
        vec![registry(60705, CLI_SESSION, NEW_PROCESS_STARTED_AT)],
        None,
        active("acc-wkbdtest"),
        Some(SWITCHED_TO_WKBDTEST_AT),
        history(&[
            (SWITCHED_TO_ZHANGJIA_AT, "acc-zhangjia"),
            (SWITCHED_TO_WKBDTEST_AT, "acc-wkbdtest"),
        ]),
    );
    let known = [account("acc-zhangjia", None), account("acc-wkbdtest", None)];
    assert_eq!(
        cli(&e, &known, NEW_PROCESS_STARTED_AT + 1_000).as_deref(),
        Some("acc-wkbdtest")
    );
}

#[test]
fn stale_history_does_not_reassign_a_new_process_to_an_old_account() {
    let e = evidence(
        vec![registry(60705, CLI_SESSION, NEW_PROCESS_STARTED_AT)],
        None,
        active("acc-wkbdtest"),
        Some(SWITCHED_TO_WKBDTEST_AT),
        history(&[(SWITCHED_TO_ZHANGJIA_AT, "acc-zhangjia")]),
    );
    let known = [account("acc-zhangjia", None), account("acc-wkbdtest", None)];
    assert_eq!(
        cli(&e, &known, NEW_PROCESS_STARTED_AT + 1_000).as_deref(),
        Some("acc-wkbdtest")
    );
}

#[test]
fn stale_history_without_coverage_for_the_snapshot_is_dropped() {
    let mtime = SWITCHED_TO_WKBDTEST_AT;
    for entries in [vec![(mtime, "acc-wkbdtest")], Vec::new()] {
        let e = evidence(
            vec![registry(9312, CLI_SESSION, mtime - 1)],
            None,
            active("acc-wkbdtest"),
            Some(mtime),
            history(&entries),
        );
        assert_eq!(cli(&e, &[account("acc-wkbdtest", None)], mtime + 1_000), None);
    }
}

#[test]
fn missing_snapshot_evidence_is_dropped() {
    let known = vec![account("acc-cli", Some(UID_A))];
    let e = evidence(
        Vec::new(),
        None,
        active("acc-cli"),
        Some(900),
        history(&[(500, "acc-cli")]),
    );
    assert_eq!(
        attribute(&cli_event(None), HookSource::Cli, &e, &known, 10_000),
        None
    );
    let e = evidence(
        vec![registry(9312, CLI_SESSION, 500)],
        None,
        None,
        None,
        history(&[(500, "acc-cli")]),
    );
    assert_eq!(cli(&e, &known, 10_000), None);
}

#[test]
fn history_account_deleted_from_the_library_is_dropped() {
    let e = evidence(
        vec![registry(9312, CLI_SESSION, 500)],
        None,
        active("acc-cli"),
        Some(900),
        history(&[(500, "acc-deleted")]),
    );
    assert_eq!(cli(&e, &[account("acc-cli", Some(UID_A))], 10_000), None);

    let e = evidence(
        vec![registry(60705, CLI_SESSION, NEW_PROCESS_STARTED_AT)],
        None,
        active("acc-deleted"),
        Some(SWITCHED_TO_WKBDTEST_AT),
        history(&[(SWITCHED_TO_ZHANGJIA_AT, "acc-zhangjia")]),
    );
    assert_eq!(
        cli(&e, &[account("acc-zhangjia", None)], NEW_PROCESS_STARTED_AT + 1_000),
        None
    );
}

#[test]
fn future_snapshot_time_is_dropped() {
    let e = evidence(
        Vec::new(),
        Some("{\"timestamp\":20000}\n".to_string()),
        active("acc-cli"),
        Some(900),
        history(&[(500, "acc-cli")]),
    );
    assert_eq!(cli(&e, &[account("acc-cli", Some(UID_A))], 10_000), None);
}

#[test]
fn events_are_dropped_when_attribution_fails() {
    let accounts = vec![account("acc-other", None)];
    let found = |_: &QuotaEvent| {
        evidence(
            vec![registry(4242, "s-1", 500)],
            None,
            active("acc-cli"),
            Some(900),
            history(&[(500, "acc-cli")]),
        )
    };
    let file = format!(
        "{}\n",
        stop_line("s-1", "hy3", "/home/u/.codebuddy/projects/s.jsonl")
    );
    let mut state = State::new();
    assert_eq!(
        consume(&mut state, file.as_bytes(), &accounts, &found, 1_000),
        Some(false)
    );
    assert!(state.events.is_empty());
    assert_eq!(state.last_event_at, None);
    assert!(state.offset > 0);
}

#[test]
fn workbuddy_events_use_the_auth_file_uid_then_the_session_fallback() {
    let accounts = vec![
        account("acc-wb", Some(UID_A)),
        account("acc-session", Some("other-uid")),
    ];
    let login = format!("{{\"account\":{{\"uid\":\"{UID_A}\"}},\"auth\":{{\"accessToken\":\"t\"}}}}");
    let line = |session: &str| {
        format!(
            "{}\n",
            stop_line(session, "hy3", "/home/u/.workbuddy/projects/s.jsonl")
        )
    };
    let logged_in = |_: &QuotaEvent| {
        let mut e = evidence(Vec::new(), None, None, None, Vec::new());
        e.login = Some(login.clone());
        e
    };
    let mut state = State::new();
    assert_eq!(
        consume(&mut state, line("s-wb").as_bytes(), &accounts, &logged_in, 1_000),
        Some(true)
    );
    assert_eq!(state.events[0].account_id, "acc-wb");

    let fallback = |event: &QuotaEvent| {
        let mut e = evidence(Vec::new(), None, None, None, Vec::new());
        if event.session_id.as_deref() == Some("s-fallback") {
            e.by_session = Some("acc-session".to_string());
        }
        e
    };
    let file = format!("{}{}", line("s-fallback"), line("s-unknown"));
    let mut state = State::new();
    assert_eq!(
        consume(&mut state, file.as_bytes(), &accounts, &fallback, 1_000),
        Some(true)
    );
    assert_eq!(state.events.len(), 1);
    assert_eq!(state.events[0].account_id, "acc-session");

    let mut root_uid = evidence(Vec::new(), None, None, None, Vec::new());
    root_uid.login = Some(format!("{{\"uid\":\" {UID_A} \"}}"));
    assert_eq!(
        attribute(
            &cli_event(None),
            HookSource::WorkBuddy(WbVariant::Cn),
            &root_uid,
            &accounts,
            1
        )
        .as_deref(),
        Some("acc-wb")
    );
}

#[test]
fn entries_expire_at_their_reset_time() {
    let mut state = State {
        offset: 0,
        last_event_at: None,
        events: vec![StoredEntry {
            account_id: "a".to_string(),
            model: Some("hy3".to_string()),
            reset_at: 1_500,
            first_seen_at: 1_000,
            hit_count: 1,
        }],
    };
    assert_eq!(live_entries(&mut state, 1_400).len(), 1);
    assert!(live_entries(&mut state, 1_500).is_empty());
}

#[test]
fn truncated_events_file_resets_the_offset_without_duplicating_entries() {
    let accounts = vec![account("acc-cli", Some(UID_A))];
    let found = |_: &QuotaEvent| {
        evidence(
            vec![registry(4242, "s-1", 500)],
            None,
            active("acc-cli"),
            Some(900),
            history(&[(500, "acc-cli")]),
        )
    };
    let file = format!(
        "{}\n",
        stop_line("s-1", "hy3", "/home/u/.codebuddy/projects/s.jsonl")
    );
    let mut state = State::new();
    assert_eq!(
        consume(&mut state, file.as_bytes(), &accounts, &found, 1_000),
        Some(true)
    );
    assert!(state.offset > 0);
    assert_eq!(consume(&mut state, b"", &accounts, &found, 2_000), None);
    assert_eq!(state.offset, 0);
    assert_eq!(state.events.len(), 1);
    assert_eq!(
        consume(&mut state, file.as_bytes(), &accounts, &found, 3_000),
        Some(true)
    );
    assert_eq!(state.events.len(), 1, "read again, the refusal is no new entry");
}

#[test]
fn large_event_files_are_rotated_without_losing_the_tail() {
    let accounts = vec![account("acc-cli", Some(UID_A))];
    let found = |_: &QuotaEvent| {
        evidence(
            vec![registry(4242, "s-1", 500)],
            None,
            active("acc-cli"),
            Some(900),
            history(&[(500, "acc-cli")]),
        )
    };
    let line = stop_line("s-1", "hy3", "/home/u/.codebuddy/projects/s.jsonl");
    let filler = "x".repeat(COMPACT_AFTER_BYTES as usize);
    let file = format!("{filler}\n{line}\n");
    let mut state = State::new();
    assert_eq!(
        consume(&mut state, file.as_bytes(), &accounts, &found, 1_000),
        Some(true)
    );
    assert_eq!(state.events.len(), 1);
    assert_eq!(state.offset, 0);
    assert!(!should_rotate(COMPACT_AFTER_BYTES - 1, Some(COMPACT_AFTER_BYTES - 1)));
    assert!(!should_rotate(COMPACT_AFTER_BYTES, Some(COMPACT_AFTER_BYTES + 1)));
    assert_eq!(rotated_lines(2, b"a\nb\n"), vec!["b".to_string()]);
}

#[test]
fn watcher_state_path_lives_in_the_store_directory() {
    let store = FilePath::new("/home/u/.wb-switch", PathStyle::Unix);
    assert!(state_path(&store).text.ends_with(STATE_FILE_NAME));
    assert_eq!(
        state_path(&store).text,
        "/home/u/.wb-switch/rate_limit_state.json"
    );
}

#[test]
fn a_report_of_a_known_refusal_adds_to_it() {
    let entry = |at: i64, count: u32, model: &str| StoredEntry {
        account_id: "a".to_string(),
        model: Some(model.to_string()),
        reset_at: 9,
        first_seen_at: at,
        hit_count: count,
    };
    let mut events = vec![entry(5, 2, "m")];
    merge_entry(&mut events, entry(3, 4, "m"));
    assert_eq!(events.len(), 1);
    assert_eq!((events[0].first_seen_at, events[0].hit_count), (3, 6));
    merge_entry(&mut events, entry(3, 1, "other"));
    assert_eq!(events.len(), 2);
}

#[test]
fn pending_bytes_last_event_and_setting() {
    assert!(has_pending_bytes(Some(3), 2));
    assert!(!has_pending_bytes(Some(2), 2));
    assert!(!has_pending_bytes(None, 2));
    let state = |at: i64| State {
        offset: 0,
        last_event_at: Some(at),
        events: Vec::new(),
    };
    assert_eq!(last_event_at(&Some(state(1)), &Some(state(2))), Some(1));
    assert_eq!(last_event_at(&None, &Some(state(2))), Some(2));
    assert_eq!(last_event_at(&None, &None), None);
    let config = |t: &str| parse_json(t).expect("JSON");
    assert!(!rate_limit_enabled(&config("{\"enabled\":false}")));
    assert!(rate_limit_enabled(&config("{\"enabled\":true}")));
    assert!(rate_limit_enabled(&config("{}")));
    assert!(rate_limit_enabled(&Json::Null));
}

#[test]
fn reading_in_two_steps_is_reading_at_once() {
    let all = "{\"a\":\"é\"}\r\n\n  {\"b\":1} \n{\"c\":2}\n{\"d\"".as_bytes();
    let (lines, consumed) = complete_lines(all);
    assert_eq!(lines, vec!["{\"a\":\"é\"}", "{\"b\":1}", "{\"c\":2}"]);
    for cut in 0..=all.len() {
        let (first, n) = complete_lines(&all[..cut]);
        let (second, m) = complete_lines(&all[n as usize..]);
        assert_eq!(n + m, consumed);
        assert_eq!([first, second].concat(), lines);
    }
}

#[test]
fn a_full_count_is_no_bar_to_other_refusals() {
    let entry = |model: &str, count: u32| StoredEntry {
        account_id: "a".to_string(),
        model: Some(model.to_string()),
        reset_at: 9,
        first_seen_at: 1,
        hit_count: count,
    };
    let mut events = vec![entry("full", u32::MAX), entry("m", 1)];
    merge_entry(&mut events, entry("m", 1));
    merge_entry(&mut events, entry("new", 1));
    let counts: Vec<u32> = events.iter().map(|e| e.hit_count).collect();
    assert_eq!(counts, vec![u32::MAX, 2, 1]);
}

#[test]
fn lines_that_are_not_utf8_are_read_with_replacements() {
    let all = b"{\"a\":\xff}\n\xe4\xb8\n\xe4\xb8\xad\r\n \xf0\x9f\nend";
    let (lines, consumed) = complete_lines(all);
    let whole = String::from_utf8_lossy(&all[..consumed as usize - 1]).into_owned();
    let expected: Vec<String> = whole.lines().map(|line| line.trim().to_string()).collect();
    assert_eq!(lines, expected);
    assert_eq!(lines[1], "\u{fffd}");
    for cut in 0..=all.len() {
        let (first, n) = complete_lines(&all[..cut]);
        let (second, m) = complete_lines(&all[n as usize..]);
        assert_eq!(n + m, consumed);
        assert_eq!([first, second].concat(), lines);
    }
}
