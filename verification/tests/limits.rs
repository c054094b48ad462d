use chrono::TimeZone;
use wb_switch_core::json::Json;
use wb_switch_core::limit_events::{dedupe, Event};
use wb_switch_core::limit_report::{
    account_by_session, build_payload, newest_dates, recent_log_dirs, resolve, session_ids,
    sessions_query, uid_to_account, Account, Resolved,
};
use wb_switch_core::limits::{scan_bytes, scan_text, Hit, QUOTA_MARKER_CN, QUOTA_MARKER_EN};
use wb_switch_core::log_line::{line_timestamp, parse_reset_at, request_pair};
use wb_switch_core::search::contains;
use wb_switch_core::variant::WbVariant;

const CN_RESET_AT: i64 = 1_789_639_167_000;
const EN_RESET_AT: i64 = 1_789_354_761_000;
const SDK_OCCURRED_AT: i64 = 1_789_575_631_523;

const CN_SESSION: &str = "387a486d-b5c9-473d-b823-121db59f0084";
const CN_REQUEST: &str = "34fccb8a1ed74da39dea5481eba85b46";
const EN_SESSION: &str = "9b9130df-3665-4fdc-9ae7-65c23c8f8edd";
const EN_REQUEST: &str = "4d83788eb9de41d08424eb2b64c08bd3";

fn business_line(timestamp: &str, body: &str) -> String {
    format!("[{timestamp}] [Error] [pid=1] {body}")
}

fn cn_quota_with(session: &str, request: &str, reset: &str) -> String {
    format!(
        "429 您的使用量已超出频率限制，将在 {reset} UTC+8 重置，您也可以切换其他模型继续使用。 ({request}/{session})"
    )
}

fn cn_quota() -> String {
    cn_quota_with(CN_SESSION, CN_REQUEST, "2026-09-17 17:59:27")
}

fn en_quota() -> String {
    format!(
        "429 usage exceeds frequency limit, please try later, will reset at 2026-09-14 10:59:21 UTC+8, switch to another model. ({EN_REQUEST}/{EN_SESSION})"
    )
}

fn config_line(session: &str, model: &str) -> String {
    format!("[ModelConfig] sessionId={session}, resolved model={model} for agent=cli, requestOptions.model={model}")
}

fn provider_line(request: &str, model: &str) -> String {
    format!(
        "[ModelProvider] Sending request: agent=cli, model={model}, requestId={request}, stream=true"
    )
}

fn at<'a>(json: &'a Json, key: &str) -> &'a Json {
    json.get(key).expect("the key is there")
}

fn items(json: &Json) -> &Vec<Json> {
    match json {
        Json::Array(items) => items,
        _ => panic!("an array"),
    }
}

fn text(json: &Json) -> &str {
    match json {
        Json::Text(t) => t,
        _ => panic!("a text"),
    }
}

#[test]
fn byte_filter_matches_multibyte_and_ascii_markers() {
    assert!(contains(cn_quota().as_bytes(), QUOTA_MARKER_CN.as_bytes()));
    assert!(contains(
        b"x usage exceeds frequency limit y",
        QUOTA_MARKER_EN.as_bytes()
    ));
    assert!(!contains(b"nothing to see", QUOTA_MARKER_EN.as_bytes()));
    assert!(!contains(b"", QUOTA_MARKER_CN.as_bytes()));
    assert!(!contains(b"", b""));
    assert!(!contains(b"aaa", b"aaaa"));
    assert!(contains(b"aaaa", b"aaaa"));
    assert!(contains(b"abcabcabd", b"abcabd"));
    assert!(contains(b"xxababacyy", b"ababac"));
    assert!(!contains(b"xxabababyy", b"ababac"));
}

#[test]
fn parses_chinese_and_english_reset_times() {
    assert_eq!(parse_reset_at(&cn_quota()), Some(CN_RESET_AT));
    assert_eq!(parse_reset_at(&en_quota()), Some(EN_RESET_AT));
    assert_eq!(
        parse_reset_at("429 您的使用量已超出频率限制，将在 2026-09-17 17:59:27 重置"),
        None
    );
}

#[test]
fn parses_utc_offsets_the_official_text_may_use() {
    let at = |offset: &str| {
        parse_reset_at(&format!(
            "将在 2026-09-17 17:59:27 UTC{offset} 重置，您也可以切换其他模型继续使用。"
        ))
    };
    assert_eq!(at("+8"), Some(CN_RESET_AT));
    assert_eq!(at("+08"), Some(CN_RESET_AT));
    assert_eq!(at("+08:00"), Some(CN_RESET_AT));
    assert_eq!(at("+0800"), Some(CN_RESET_AT));
    assert_eq!(at("+7"), Some(CN_RESET_AT + 3_600_000));
    assert_eq!(at(""), None);
    assert_eq!(at("-3:30"), Some(CN_RESET_AT + (8 * 60 + 3 * 60 + 30) * 60_000));
    assert_eq!(at("+800"), None);
    assert_eq!(at("+24"), None);
    assert_eq!(at("+:30"), None);
    assert_eq!(at("+99999999999"), None);
}

#[test]
fn reset_times_that_are_not_times_are_not_taken() {
    assert_eq!(parse_reset_at("将在 2026-13-17 17:59:27 UTC+8 重置"), None);
    assert_eq!(parse_reset_at("将在 明天 UTC+8 重置"), None);
    assert_eq!(
        parse_reset_at("将在 稍后 重置, will reset at 2026-09-14 10:59:21 UTC+8,"),
        Some(EN_RESET_AT),
        "the English words count where the Chinese ones give no time"
    );
}

#[test]
fn business_log_timestamp_is_local_while_sdk_log_timestamp_is_utc() {
    let local = chrono::Local
        .with_ymd_and_hms(2026, 9, 17, 0, 20, 31)
        .earliest()
        .expect("the time exists");
    assert_eq!(
        line_timestamp(&business_line("9/17/2026, 12:20:31 AM.232", "[Info] x")),
        Some(local.timestamp_millis() + 232)
    );
    assert_eq!(
        line_timestamp("2026-09-16T16:20:31.523Z runtime.applyStopReason {}"),
        Some(SDK_OCCURRED_AT)
    );
    assert_eq!(line_timestamp("no timestamp here"), None);
}

#[test]
fn parses_the_trailing_request_id_pair() {
    assert_eq!(
        request_pair(&cn_quota()),
        Some((CN_REQUEST.to_string(), CN_SESSION.to_string()))
    );
    assert_eq!(
        request_pair(&format!(
            "x ({CN_REQUEST}/{CN_SESSION}), lastPendingTool=(none)"
        )),
        Some((CN_REQUEST.to_string(), CN_SESSION.to_string()))
    );
    assert_eq!(request_pair("no pair here"), None);
    assert_eq!(request_pair(&format!("({CN_REQUEST}/{CN_REQUEST})")), None);
}

#[test]
fn model_attribution_falls_back_request_id_then_session_then_unknown() {
    let with_request = [
        business_line(
            "9/17/2026, 12:20:03 AM.349",
            &config_line(CN_SESSION, "hy3"),
        ),
        business_line(
            "9/17/2026, 12:20:30 AM.838",
            &provider_line(CN_REQUEST, "deepseek-v4.1-flash"),
        ),
        business_line("9/17/2026, 12:20:31 AM.232", &cn_quota()),
    ]
    .join("\n");
    let events = dedupe(scan_text(&with_request));
    assert_eq!(events.len(), 1);
    assert_eq!(events[0].model.as_deref(), Some("deepseek-v4.1-flash"));

    let with_session = [
        business_line(
            "9/17/2026, 12:20:03 AM.349",
            &config_line(CN_SESSION, "hy3"),
        ),
        business_line("9/17/2026, 12:20:31 AM.232", &cn_quota()),
    ]
    .join("\n");
    let events = dedupe(scan_text(&with_session));
    assert_eq!(events[0].model.as_deref(), Some("hy3"));

    let without_model = business_line("9/17/2026, 12:20:31 AM.232", &cn_quota());
    let events = dedupe(scan_text(&without_model));
    assert_eq!(events[0].model, None);
}

#[test]
fn attributes_the_limited_model_not_the_one_switched_to_afterwards() {
    let text = [
        business_line(
            "9/17/2026, 12:20:03 AM.349",
            &config_line(CN_SESSION, "hy3"),
        ),
        business_line(
            "9/17/2026, 12:20:30 AM.838",
            &provider_line(CN_REQUEST, "deepseek-v4.1-flash"),
        ),
        business_line("9/17/2026, 12:20:31 AM.232", &cn_quota()),
        business_line(
            "9/17/2026, 12:21:54 AM.388",
            &config_line(CN_SESSION, "hy3"),
        ),
    ]
    .join("\n");
    let events = dedupe(scan_text(&text));
    assert_eq!(events.len(), 1);
    assert_eq!(events[0].model.as_deref(), Some("deepseek-v4.1-flash"));
}

#[test]
fn request_options_model_is_not_mistaken_for_the_request_model() {
    let text = [
        business_line(
            "9/17/2026, 12:20:03 AM.349",
            &config_line("other", "kimi-k3-1"),
        ),
        business_line(
            "9/17/2026, 12:20:30 AM.838",
            &format!("[ModelProvider] requestId={CN_REQUEST}, requestOptions.model=glm-5.2"),
        ),
        business_line("9/17/2026, 12:20:31 AM.232", &cn_quota()),
    ]
    .join("\n");
    let events = dedupe(scan_text(&text));
    assert_eq!(events[0].model, None);
}

#[test]
fn classifier_line_supplies_the_session_when_the_pair_is_missing() {
    let text = [
        business_line(
            "9/17/2026, 12:20:31 AM.467",
            &format!(
                "[ACP Agent] refusal classified: sessionId={CN_SESSION}, rpcCode=-32003, httpStatus=429, bizCode=6004, category=quota"
            ),
        ),
        business_line(
            "9/17/2026, 12:20:31 AM.468",
            "429 您的使用量已超出频率限制，将在 2026-09-17 17:59:27 UTC+8 重置，您也可以切换其他模型继续使用。",
        ),
    ]
    .join("\n");
    let events = dedupe(scan_text(&text));
    assert_eq!(events.len(), 1);
    assert_eq!(events[0].session_id.as_deref(), Some(CN_SESSION));
}

#[test]
fn recognizes_english_quota_text() {
    let text = [
        business_line(
            "9/14/2026, 10:59:00 AM.000",
            &config_line(EN_SESSION, "kimi-k3-1"),
        ),
        business_line("9/14/2026, 10:59:21 AM.523", &en_quota()),
    ]
    .join("\n");
    let events = dedupe(scan_text(&text));
    assert_eq!(events.len(), 1);
    assert_eq!(events[0].reset_at, EN_RESET_AT);
    assert_eq!(events[0].model.as_deref(), Some("kimi-k3-1"));
    assert_eq!(events[0].session_id.as_deref(), Some(EN_SESSION));
}

#[test]
fn fourteen_duplicate_lines_collapse_into_two_events() {
    let event_lines = |session: &str,
                       request: &str,
                       reset: &str,
                       provider_at: &str,
                       quota_at: &str,
                       switched_at: &str| {
        let mut lines = vec![
            business_line(provider_at, &config_line(session, "deepseek-v4.1-flash")),
            business_line(provider_at, &provider_line(request, "deepseek-v4.1-flash")),
        ];
        for ms in ["232", "233", "233", "462", "467", "468"] {
            lines.push(business_line(
                &format!("{quota_at}.{ms}"),
                &cn_quota_with(session, request, reset),
            ));
        }
        lines.push(business_line(switched_at, &config_line(session, "hy3")));
        lines
    };
    let first = event_lines(
        CN_SESSION,
        CN_REQUEST,
        "2026-09-17 17:59:27",
        "9/17/2026, 12:20:03 AM.349",
        "9/17/2026, 12:20:31 AM",
        "9/17/2026, 12:21:54 AM.388",
    );
    let second = event_lines(
        EN_SESSION,
        EN_REQUEST,
        "2026-09-17 17:59:27",
        "9/17/2026, 12:33:56 AM.520",
        "9/17/2026, 12:33:56 AM",
        "9/17/2026, 1:25:24 AM.523",
    );
    // The SDK writes each event once more, in UTC, at the instant of its business lines.
    let utc = |minute: u32, second: u32, ms: i64| {
        let at = chrono::Local
            .with_ymd_and_hms(2026, 9, 17, 0, minute, second)
            .earliest()
            .expect("the time exists")
            .timestamp_millis()
            + ms;
        chrono::DateTime::from_timestamp_millis(at)
            .expect("in range")
            .format("%Y-%m-%dT%H:%M:%S%.3fZ")
            .to_string()
    };
    let sdk = |at: String, quota: &str| {
        format!("{at} runtime.applyStopReason {{\"errorMessageMetaPreview\":\"{quota}\"}}")
    };
    let mut hits = Vec::new();
    for file in [
        first.join("\n"),
        second.join("\n"),
        sdk(utc(20, 31, 523), &first[2]),
        sdk(utc(33, 56, 520), &second[2]),
    ] {
        hits.extend(scan_bytes(file.as_bytes()));
    }
    assert_eq!(hits.len(), 14);
    let events = dedupe(hits);
    assert_eq!(events.len(), 2);
    assert_eq!(events[0].hit_count, 7);
    assert_eq!(events[1].hit_count, 7);
    assert_eq!(events[0].model.as_deref(), Some("deepseek-v4.1-flash"));
    assert_eq!(events[1].model.as_deref(), Some("deepseek-v4.1-flash"));
    assert_eq!(events[0].reset_at, CN_RESET_AT);
    assert_eq!(events[1].reset_at, CN_RESET_AT);
    assert_eq!(events[0].session_id.as_deref(), Some(CN_SESSION));
    assert_eq!(events[1].session_id.as_deref(), Some(EN_SESSION));
}

#[test]
fn bytes_that_are_not_utf8_are_replaced_and_the_rest_is_read() {
    let mut bytes = b"\xff\xfe\n".to_vec();
    bytes.extend_from_slice(
        format!("2026-09-16T16:20:31.523Z {}", cn_quota()).as_bytes(),
    );
    let hits = scan_bytes(&bytes);
    assert_eq!(hits.len(), 1);
    assert_eq!(hits[0].occurred_at, SDK_OCCURRED_AT);
    assert!(scan_bytes(b"nothing to see").is_empty());
}

#[test]
fn dedupe_keeps_sessions_apart_and_merges_only_within_fifteen_seconds() {
    let hit = |session: &str, occurred_at: i64, model: Option<&str>| Hit {
        session_id: Some(session.to_string()),
        model: model.map(str::to_string),
        reset_at: CN_RESET_AT,
        occurred_at,
    };
    let events = dedupe(vec![
        hit("session-a", 1_000_000, None),
        hit("session-a", 1_014_000, None),
        hit("session-b", 1_003_000, Some("hy3")),
        hit("session-c", 1_020_000, None),
    ]);
    assert_eq!(events.len(), 2);
    assert_eq!(events[0].hit_count, 3);
    assert_eq!(events[0].session_id.as_deref(), Some("session-a"));
    assert_eq!(events[0].model.as_deref(), Some("hy3"));
    assert_eq!(events[1].hit_count, 1);
    assert_eq!(events[1].session_id.as_deref(), Some("session-c"));
}

#[test]
fn dedupe_counts_every_hit_once_at_the_edges_of_the_window() {
    let hit = |session: Option<&str>, occurred_at: i64, reset_at: i64| Hit {
        session_id: session.map(str::to_string),
        model: None,
        reset_at,
        occurred_at,
    };
    let events = dedupe(vec![
        hit(None, 0, 5),
        hit(Some("a"), 15_000, 5),
        hit(Some("b"), 15_001, 5),
        hit(Some("a"), 15_000, 6),
        hit(None, i64::MIN, 7),
        hit(Some("z"), i64::MAX, 7),
    ]);
    let counts: Vec<(i64, u32)> = events.iter().map(|e| (e.reset_at, e.hit_count)).collect();
    assert_eq!(counts, vec![(5, 2), (5, 1), (6, 1), (7, 1), (7, 1)]);
    assert_eq!(events[0].session_id.as_deref(), Some("a"));
    assert_eq!(counts.iter().map(|c| c.1).sum::<u32>(), 6);
}

#[test]
fn window_keeps_the_two_newest_date_directories_and_tolerates_missing_ones() {
    let names = |list: &[&str]| -> Vec<String> { list.iter().map(|n| n.to_string()).collect() };
    assert_eq!(
        recent_log_dirs(names(&["2026-09-11", "2026-09-16", "migration", "2026-09-17"])),
        names(&["2026-09-17", "2026-09-16"])
    );
    assert!(recent_log_dirs(Vec::new()).is_empty());
    assert_eq!(recent_log_dirs(names(&["sdk", "2026-09-17"])), names(&["2026-09-17"]));
    assert_eq!(newest_dates(names(&["b", "a", "c"])), names(&["c", "b"]));
}

#[test]
fn payload_drops_expired_entries_and_sorts_by_reset_time() {
    let now = 1_000_000;
    let resolved = vec![
        Resolved {
            account_id: "a".to_string(),
            model: Some("late".to_string()),
            reset_at: now + 7_200_000,
            first_seen_at: 0,
            hit_count: 1,
        },
        Resolved {
            account_id: "a".to_string(),
            model: Some("soon".to_string()),
            reset_at: now + 600_000,
            first_seen_at: 0,
            hit_count: 3,
        },
        Resolved {
            account_id: "a".to_string(),
            model: Some("expired".to_string()),
            reset_at: now - 1,
            first_seen_at: 0,
            hit_count: 1,
        },
        Resolved {
            account_id: "b".to_string(),
            model: None,
            reset_at: now + 60_000,
            first_seen_at: 0,
            hit_count: 2,
        },
    ];
    let payload = build_payload(&resolved, now);
    assert_eq!(payload.get_i64("windowDays"), Some(2));
    assert_eq!(payload.get_i64("scannedAt"), Some(now));
    let accounts = items(at(&payload, "accounts"));
    assert_eq!(accounts.len(), 2);
    assert_eq!(text(at(&accounts[0], "accountId")), "a");
    let limited = items(at(&accounts[0], "limited"));
    assert_eq!(limited.len(), 2);
    assert_eq!(text(at(&limited[0], "model")), "soon");
    assert_eq!(text(at(&limited[1], "model")), "late");
    assert_eq!(limited[0].get_i64("hitCount"), Some(3));
    assert_eq!(limited[0].get_i64("firstSeenAt"), Some(0));
    assert_eq!(
        at(&items(at(&accounts[1], "limited"))[0], "model"),
        &Json::Null
    );
}

#[test]
fn payload_keeps_the_latest_reset_time_per_account_and_model() {
    let now = 1_000_000;
    let resolved = vec![
        Resolved {
            account_id: "a".to_string(),
            model: Some("hy3".to_string()),
            reset_at: now + 600_000,
            first_seen_at: 10,
            hit_count: 1,
        },
        Resolved {
            account_id: "a".to_string(),
            model: Some("hy3".to_string()),
            reset_at: now + 3_600_000,
            first_seen_at: 20,
            hit_count: 2,
        },
    ];
    let payload = build_payload(&resolved, now);
    let accounts = items(at(&payload, "accounts"));
    let limited = items(at(&accounts[0], "limited"));
    assert_eq!(limited.len(), 1);
    assert_eq!(limited[0].get_i64("resetAt"), Some(now + 3_600_000));
    assert_eq!(limited[0].get_i64("hitCount"), Some(2));
}

#[test]
fn events_without_an_account_are_dropped() {
    let event = |session: Option<&str>| Event {
        session_id: session.map(str::to_string),
        model: None,
        reset_at: 1,
        first_seen_at: 0,
        hit_count: 1,
    };
    let account = |id: &str, uid: &str, variant: WbVariant| Account {
        id: Some(id.to_string()),
        uid: Some(uid.to_string()),
        variant,
    };
    let events = vec![event(Some("s2")), event(None), event(Some("s1")), event(Some("s2"))];
    assert_eq!(session_ids(&events), vec!["s1".to_string(), "s2".to_string()]);
    let by_uid = uid_to_account(
        &vec![
            account("acc-1", "u1", WbVariant::Cn),
            account("acc-2", "u2", WbVariant::Ai),
            Account { id: None, uid: Some("u3".to_string()), variant: WbVariant::Cn },
        ],
        WbVariant::Cn,
    );
    assert_eq!(by_uid.get("u1").as_deref(), Some("acc-1"));
    assert_eq!(by_uid.get("u2"), None);
    assert_eq!(by_uid.get("u3"), None);
    let mapping = account_by_session(
        &vec![
            (Some("s1".to_string()), Some("u1".to_string())),
            (Some("s2".to_string()), Some("u2".to_string())),
            (None, Some("u1".to_string())),
        ],
        &by_uid,
    );
    let resolved = resolve(&events, &mapping);
    assert_eq!(resolved.len(), 1);
    assert_eq!(resolved[0].account_id, "acc-1");
    assert_eq!(
        sessions_query(3),
        "SELECT id, user_id FROM sessions WHERE id IN (?,?,?)"
    );
}

#[test]
fn the_order_of_lines_does_not_matter() {
    let hit = |session: &str, occurred_at: i64, model: Option<&str>| Hit {
        session_id: Some(session.to_string()),
        model: model.map(str::to_string),
        reset_at: CN_RESET_AT,
        occurred_at,
    };
    let hits = || {
        vec![
            hit("a", 1_000_000, None),
            hit("b", 1_003_000, Some("hy3")),
            hit("a", 1_014_000, Some("auto")),
            hit("c", 1_020_000, None),
        ]
    };
    let outline = |events: Vec<Event>| -> Vec<(Option<String>, i64, i64, u32, bool)> {
        events
            .into_iter()
            .map(|e| {
                (
                    e.session_id,
                    e.reset_at,
                    e.first_seen_at,
                    e.hit_count,
                    e.model.is_some(),
                )
            })
            .collect()
    };
    let expected = outline(dedupe(hits()));
    assert_eq!(expected.len(), 2);
    for turn in 0..4 {
        let mut turned = hits();
        turned.rotate_left(turn);
        assert_eq!(outline(dedupe(turned)), expected);
        let mut turned = hits();
        turned.reverse();
        turned.rotate_left(turn);
        assert_eq!(outline(dedupe(turned)), expected);
    }
}

#[test]
fn a_log_without_the_words_tells_nothing_whatever_its_bytes() {
    let mut bytes = cn_quota().into_bytes();
    let at = bytes.len() / 8;
    bytes[at] = 0xff;
    let text = String::from_utf8_lossy(&bytes).into_owned();
    assert_eq!(
        text.contains(QUOTA_MARKER_CN),
        contains(&bytes, QUOTA_MARKER_CN.as_bytes())
    );
    let broken = b"2026-09-16T16:20:31.523Z usage exceeds frequency\xfflimit";
    assert!(scan_bytes(broken).is_empty());
}
