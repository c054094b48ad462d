//! Refusals as the hooks report them: which account each is about, and the ledger of those that
//! still hold.

use vstd::prelude::*;
use vstd::slice::slice_subrange;

use crate::cli_switch_history;
use crate::cli_switch_history::RecordView;
use crate::cli_switch_history::SwitchRecord;
use crate::json;
use crate::json::Json;
use crate::json::JsonView;
use crate::limit_report::Account;
use crate::limit_report::AccountView;
use crate::limit_report::Resolved;
use crate::limit_report::ResolvedView;
use crate::limits;
use crate::log_line;
use crate::path;
use crate::path::FilePath;
use crate::text;
use crate::variant::WbVariant;

verus! {

/// The name of the file that holds the ledger.
pub const STATE_FILE_NAME: &'static str = "rate_limit_state.json";

/// The number of bytes from which on a file of events that has been read is put aside.
pub const COMPACT_AFTER_BYTES: u64 = 1_048_576;

/// The path of the file that holds the ledger.
pub fn state_path(store_dir: &FilePath) -> (r: FilePath)
    ensures
        r@ == store_dir@.join(STATE_FILE_NAME@),
{
    store_dir.join(STATE_FILE_NAME)
}

// ---------------------------------------------------------------------------
// What a hook reports
// ---------------------------------------------------------------------------

/// The part of a hook's report that matters here.
#[derive(Debug, PartialEq, Eq)]
pub struct HookPayload {
    pub transcript_path: Option<String>,
    pub session_id: Option<String>,
    pub model: Option<String>,
    pub last_assistant_message: Option<String>,
}

/// A refusal that a hook has reported.
#[derive(Debug, PartialEq, Eq)]
pub struct QuotaEvent {
    pub transcript_path: String,
    pub session_id: Option<String>,
    pub model: Option<String>,
    pub reset_at: i64,
}

#[verifier::ext_equal]
pub struct QuotaEventView {
    pub transcript_path: Seq<char>,
    pub session_id: Option<Seq<char>>,
    pub model: Option<Seq<char>>,
    pub reset_at: i64,
}

impl QuotaEvent {
    pub open spec fn view(&self) -> QuotaEventView {
        QuotaEventView {
            transcript_path: self.transcript_path@,
            session_id: text::opt_text(self.session_id),
            model: text::opt_text(self.model),
            reset_at: self.reset_at,
        }
    }
}

pub open spec fn opt_event(e: Option<QuotaEvent>) -> Option<QuotaEventView> {
    match e {
        Some(q) => Some(q@),
        None => None,
    }
}

/// A word that stands for "no model".
pub open spec fn is_sentinel(model: Seq<char>) -> bool {
    model == "auto"@ || model == "undefined"@ || model == "null"@
}

/// The model, where one is named.
pub open spec fn named_model(model: Option<Seq<char>>) -> Option<Seq<char>> {
    match model {
        Some(m) => if is_sentinel(m) || text::trim(m).len() == 0 {
            None
        } else {
            Some(m)
        },
        None => None,
    }
}

/// The refusal that a report tells of, given the time of the reset that its message names: the
/// message must hold the words of a refusal, and the time and the transcript must be known.
pub open spec fn event_told(payload: HookPayload, reset_at: Option<i64>) -> Option<QuotaEventView> {
    match (payload.last_assistant_message, reset_at, payload.transcript_path) {
        (Some(message), Some(reset_at), Some(transcript)) => if limits::is_quota_line(message@) {
            Some(
                QuotaEventView {
                    transcript_path: transcript@,
                    session_id: text::opt_text(payload.session_id),
                    model: named_model(text::opt_text(payload.model)),
                    reset_at,
                },
            )
        } else {
            None
        },
        _ => None,
    }
}

/// The time of the reset that a report's message names.
pub open spec fn reset_told(payload: HookPayload) -> Option<i64> {
    match payload.last_assistant_message {
        Some(message) => log_line::reset_value(message@),
        None => None,
    }
}

fn sentinel(model: &str) -> (r: bool)
    ensures
        r == is_sentinel(model@),
{
    text::same_text(model, "auto") || text::same_text(model, "undefined") || text::same_text(
        model,
        "null",
    )
}

/// The refusal that a report tells of, given the time of the reset that its message names.
pub fn quota_event(payload: HookPayload, reset_at: Option<i64>) -> (r: Option<QuotaEvent>)
    ensures
        opt_event(r) == event_told(payload, reset_at),
        payload.last_assistant_message is Some && (text::includes(
            payload.last_assistant_message->0@,
            "超出频率限制"@,
        ) || text::includes(
            payload.last_assistant_message->0@,
            "usage exceeds frequency limit"@,
        )) && reset_at is Some && payload.transcript_path is Some ==> r is Some && r->0.reset_at
            == reset_at->0 && r->0.transcript_path@ == payload.transcript_path->0@ && text::opt_text(
            r->0.session_id,
        ) == text::opt_text(payload.session_id),
{
    let told = match &payload.last_assistant_message {
        Some(message) => text::has_text(message.as_str(), limits::QUOTA_MARKER_CN)
            || text::has_text(message.as_str(), limits::QUOTA_MARKER_EN),
        None => false,
    };
    if !told {
        return None;
    }
    let model = match payload.model {
        Some(m) => if sentinel(m.as_str()) || text::trimmed_text(m.as_str()).as_str().unicode_len()
            == 0 {
            None
        } else {
            Some(m)
        },
        None => None,
    };
    match (reset_at, payload.transcript_path) {
        (Some(reset_at), Some(transcript_path)) => Some(
            QuotaEvent { transcript_path, session_id: payload.session_id, model, reset_at },
        ),
        _ => None,
    }
}

/// The refusal that a report tells of.
pub fn parse_quota_line(payload: HookPayload) -> (r: Option<QuotaEvent>)
    ensures
        opt_event(r) == event_told(payload, reset_told(payload)),
{
    let reset_at: Option<i64> = match &payload.last_assistant_message {
        Some(message) => log_line::parse_reset_at(message.as_str()),
        None => None,
    };
    quota_event(payload, reset_at)
}

// ---------------------------------------------------------------------------
// The client that reports
// ---------------------------------------------------------------------------

/// The client that a report comes from.
#[derive(Clone, Copy, PartialEq, Eq, Structural, Debug)]
pub enum HookSource {
    Cli,
    WorkBuddy(WbVariant),
}

/// The client whose directory, the first of `roots` that fits, holds the transcript.
pub open spec fn source_in(
    transcript: Seq<char>,
    roots: Seq<(FilePath, HookSource)>,
) -> Option<HookSource>
    decreases roots.len(),
{
    if roots.len() == 0 {
        None
    } else if path::lies_in(transcript, roots[0].0.text@, roots[0].0.style) {
        Some(roots[0].1)
    } else {
        source_in(transcript, roots.drop_first())
    }
}

/// The client that wrote the transcript, by the directory that it lies in; `None` for a
/// transcript of another client.
pub fn source_of(transcript_path: &str, roots: &Vec<(FilePath, HookSource)>) -> (r: Option<
    HookSource,
>)
    ensures
        r == source_in(transcript_path@, roots@),
{
    let mut i: usize = 0;
    assert(roots@.skip(0) =~= roots@);
    while i < roots.len()
        invariant
            i <= roots@.len(),
            source_in(transcript_path@, roots@) == source_in(
                transcript_path@,
                roots@.skip(i as int),
            ),
        decreases roots@.len() - i,
    {
        if path::starts_with(transcript_path, roots[i].0.text.as_str(), roots[i].0.style) {
            return Some(roots[i].1);
        }
        assert(roots@.skip(i as int).drop_first() =~= roots@.skip(i + 1));
        i += 1;
    }
    None
}

// ---------------------------------------------------------------------------
// The account of a report
// ---------------------------------------------------------------------------

/// The id of the first account with the user id, where it has one.
pub open spec fn id_of_uid(accounts: Seq<AccountView>, uid: Seq<char>) -> Option<Seq<char>>
    decreases accounts.len(),
{
    if accounts.len() == 0 {
        None
    } else if accounts[0].uid == Some(uid) {
        accounts[0].id
    } else {
        id_of_uid(accounts.drop_first(), uid)
    }
}

/// Some account has the id.
pub open spec fn has_account(accounts: Seq<AccountView>, id: Seq<char>) -> bool {
    exists|i: int| 0 <= i < accounts.len() && (#[trigger] accounts[i]).id == Some(id)
}

/// The id of the account with the user id.
pub fn account_id_by_uid(accounts: &Vec<Account>, uid: &str) -> (r: Option<String>)
    ensures
        text::opt_text(r) == id_of_uid(crate::limit_report::account_views(accounts@), uid@),
{
    let ghost views = crate::limit_report::account_views(accounts@);
    let mut i: usize = 0;
    assert(views.skip(0) =~= views);
    while i < accounts.len()
        invariant
            i <= accounts@.len(),
            views == crate::limit_report::account_views(accounts@),
            id_of_uid(views, uid@) == id_of_uid(views.skip(i as int), uid@),
        decreases accounts@.len() - i,
    {
        assert(views.skip(i as int)[0] == accounts@[i as int]@);
        let found = match &accounts[i].uid {
            Some(u) => text::same_text(u.as_str(), uid),
            None => false,
        };
        if found {
            return accounts[i].id.clone();
        }
        assert(views.skip(i as int).drop_first() =~= views.skip(i + 1));
        i += 1;
    }
    None
}

/// Whether some account has the id.
pub fn account_exists(accounts: &Vec<Account>, id: &str) -> (r: bool)
    ensures
        r == has_account(crate::limit_report::account_views(accounts@), id@),
{
    let ghost views = crate::limit_report::account_views(accounts@);
    let mut i: usize = 0;
    while i < accounts.len()
        invariant
            i <= accounts@.len(),
            views == crate::limit_report::account_views(accounts@),
            forall|j: int| 0 <= j < i ==> (#[trigger] views[j]).id != Some(id@),
        decreases accounts@.len() - i,
    {
        assert(views[i as int] == accounts@[i as int]@);
        match &accounts[i].id {
            Some(a) => {
                if text::same_text(a.as_str(), id) {
                    assert(views[i as int].id == Some(id@));
                    return true;
                }
            },
            None => {},
        }
        i += 1;
    }
    false
}

/// The text without white space around it, where something is left.
pub open spec fn nonblank(t: Option<Seq<char>>) -> Option<Seq<char>> {
    match t {
        Some(s) => if text::trim(s).len() > 0 {
            Some(text::trim(s))
        } else {
            None
        },
        None => None,
    }
}

/// The text without white space around it, where something is left.
pub fn nonempty_text(value: Option<String>) -> (r: Option<String>)
    ensures
        text::opt_text(r) == nonblank(text::opt_text(value)),
{
    match value {
        Some(s) => {
            let t = text::trimmed_text(s.as_str());
            if t.as_str().unicode_len() > 0 {
                Some(t)
            } else {
                None
            }
        },
        None => None,
    }
}

/// The account in force for new processes, in the command-line client's state.
pub open spec fn active_account(root: JsonView) -> Option<Seq<char>> {
    nonblank(json::text_in(json::field(root, "activeAccountId"@)))
}

pub fn active_account_in(root: &Json) -> (r: Option<String>)
    ensures
        text::opt_text(r) == active_account(root@),
{
    nonempty_text(root.get_text("activeAccountId"))
}

/// What a text of JSON gives; nothing where it is not JSON.
pub open spec fn from_json<T>(t: Seq<char>, f: spec_fn(JsonView) -> Option<T>) -> Option<T> {
    match json::parsed(t) {
        Some(root) => f(root),
        None => None,
    }
}

/// The account in force for new processes, from the text of the command-line client's state.
pub fn cli_active_account_id(state: &str) -> (r: Option<String>)
    ensures
        text::opt_text(r) == from_json(state@, |root: JsonView| active_account(root)),
{
    match json::parse_json(state) {
        Some(root) => active_account_in(&root),
        None => None,
    }
}

/// The user id in the client's login: that of `account`, else that of the root.
pub open spec fn login_uid(root: JsonView) -> Option<Seq<char>> {
    let nested = match json::field(root, "account"@) {
        Some(account) => json::text_in(json::field(account, "uid"@)),
        None => None,
    };
    match nested {
        Some(uid) => nonblank(Some(uid)),
        None => nonblank(json::text_in(json::field(root, "uid"@))),
    }
}

pub fn login_uid_in(root: &Json) -> (r: Option<String>)
    ensures
        text::opt_text(r) == login_uid(root@),
{
    let nested = match root.get("account") {
        Some(account) => account.get_text("uid"),
        None => None,
    };
    match nested {
        Some(uid) => nonempty_text(Some(uid)),
        None => nonempty_text(root.get_text("uid")),
    }
}

/// The user id, from the text of the client's login.
pub fn auth_file_uid(login: &str) -> (r: Option<String>)
    ensures
        text::opt_text(r) == from_json(login@, |root: JsonView| login_uid(root)),
{
    match json::parse_json(login) {
        Some(root) => login_uid_in(&root),
        None => None,
    }
}

/// The later of two times that may be missing.
pub open spec fn later(a: Option<i64>, b: Option<i64>) -> Option<i64> {
    match (a, b) {
        (Some(x), Some(y)) => if x < y {
            Some(y)
        } else {
            Some(x)
        },
        (Some(x), None) => Some(x),
        (None, y) => y,
    }
}

/// When the process started that an entry of the registry is about, where the entry is of the
/// session and the process had started by `now`.
pub open spec fn started(root: JsonView, session: Seq<char>, now: i64) -> Option<i64> {
    if json::text_in(json::field(root, "sessionId"@)) == Some(session) {
        match json::integer_in(json::field(root, "startedAt"@)) {
            Some(at) => if at <= now {
                Some(at)
            } else {
                None
            },
            None => None,
        }
    } else {
        None
    }
}

/// When the last process started, by `now`, that held the session.
pub open spec fn last_started(roots: Seq<JsonView>, session: Seq<char>, now: i64) -> Option<i64>
    decreases roots.len(),
{
    if roots.len() == 0 {
        None
    } else {
        later(
            last_started(roots.drop_last(), session, now),
            started(roots.last(), session, now),
        )
    }
}

/// When the session's process took its key, from the registry of processes.
pub open spec fn snapshot_time(
    roots: Seq<JsonView>,
    session: Option<Seq<char>>,
    now: i64,
) -> Option<i64> {
    match nonblank(session) {
        Some(s) => last_started(roots, s, now),
        None => None,
    }
}

/// When the session's process took its key. Entries of earlier holders may be left in the
/// registry: the last holder before `now` counts.
pub fn snapshot_in(roots: &Vec<Json>, session_id: &Option<String>, now: i64) -> (r: Option<i64>)
    ensures
        r == snapshot_time(json::item_views(roots@), text::opt_text(*session_id), now),
{
    let session = match nonempty_text(session_id.clone()) {
        Some(s) => s,
        None => {
            return None;
        },
    };
    let ghost views = json::item_views(roots@);
    proof {
        json::lemma_item_views(roots@);
    }
    let mut snapshot: Option<i64> = None;
    let mut i: usize = 0;
    while i < roots.len()
        invariant
            i <= roots@.len(),
            views.len() == roots@.len(),
            forall|j: int| 0 <= j < roots@.len() ==> #[trigger] views[j] == roots@[j]@,
            snapshot == last_started(views.take(i as int), session@, now),
        decreases roots@.len() - i,
    {
        assert(views.take(i + 1).drop_last() =~= views.take(i as int));
        assert(views.take(i + 1).last() == views[i as int]);
        let ours = match roots[i].get_text("sessionId") {
            Some(s) => text::same_text(s.as_str(), session.as_str()),
            None => false,
        };
        if ours {
            match roots[i].get_i64("startedAt") {
                Some(at) => {
                    if at <= now {
                        snapshot = match snapshot {
                            Some(best) => if best < at {
                                Some(at)
                            } else {
                                Some(best)
                            },
                            None => Some(at),
                        };
                    }
                },
                None => {},
            }
        }
        i += 1;
    }
    assert(views.take(roots@.len() as int) =~= views);
    snapshot
}

/// The values of the texts that are JSON.
pub open spec fn readable_roots(list: Seq<Seq<char>>) -> Seq<JsonView>
    decreases list.len(),
{
    if list.len() == 0 {
        seq![]
    } else {
        match json::parsed(list.last()) {
            Some(root) => readable_roots(list.drop_last()).push(root),
            None => readable_roots(list.drop_last()),
        }
    }
}

fn roots_of(list: &Vec<String>) -> (r: Vec<Json>)
    ensures
        json::item_views(r@) == readable_roots(text::texts(list@)),
{
    let ghost views = text::texts(list@);
    let mut out: Vec<Json> = Vec::new();
    let mut i: usize = 0;
    while i < list.len()
        invariant
            i <= list@.len(),
            views == text::texts(list@),
            json::item_views(out@) == readable_roots(views.take(i as int)),
        decreases list@.len() - i,
    {
        let ghost before = out@;
        assert(views.take(i + 1).drop_last() =~= views.take(i as int));
        match json::parse_json(list[i].as_str()) {
            Some(root) => {
                out.push(root);
                assert(out@.drop_last() =~= before);
            },
            None => {},
        }
        i += 1;
    }
    assert(views.take(list@.len() as int) =~= views);
    out
}

/// When the session's process took its key, from the texts of the registry of processes; one
/// that is not JSON is passed over.
pub fn session_snapshot_time(registry: &Vec<String>, session_id: &Option<String>, now: i64) -> (r:
    Option<i64>)
    ensures
        r == snapshot_time(
            readable_roots(text::texts(registry@)),
            text::opt_text(*session_id),
            now,
        ),
{
    let roots = roots_of(registry);
    snapshot_in(&roots, session_id, now)
}

/// When the session was created, in the first line of its transcript.
pub open spec fn creation_time(root: JsonView) -> Option<i64> {
    json::integer_in(json::field(root, "timestamp"@))
}

/// When the session was created, from the first line of its transcript.
pub fn session_created_at(first_line: &str) -> (r: Option<i64>)
    ensures
        r == from_json(first_line@, |root: JsonView| creation_time(root)),
{
    match json::parse_json(first_line) {
        Some(root) => root.get_i64("timestamp"),
        None => None,
    }
}

/// The account whose key a process of the command-line client holds that started at `started`.
///
/// Where the client's state was last written by then, its current account is the one; otherwise
/// the history tells. An account that is no longer known is none.
pub open spec fn holder(
    started: i64,
    current: Option<Seq<char>>,
    state_written: Option<i64>,
    history: Seq<RecordView>,
    accounts: Seq<AccountView>,
) -> Option<Seq<char>> {
    match current {
        None => None,
        Some(account) => {
            let id = if state_written is Some && started >= state_written->0 {
                Some(account)
            } else {
                cli_switch_history::account_in_force(history, started)
            };
            match id {
                Some(a) => if has_account(accounts, a) {
                    Some(a)
                } else {
                    None
                },
                None => None,
            }
        },
    }
}

/// The same, where the start may be unknown, or lie in the future, which is not believed.
pub open spec fn key_holder(
    snapshot: Option<i64>,
    created: Option<i64>,
    current: Option<Seq<char>>,
    state_written: Option<i64>,
    history: Seq<RecordView>,
    accounts: Seq<AccountView>,
    now: i64,
) -> Option<Seq<char>> {
    let started = if snapshot is Some {
        snapshot
    } else {
        created
    };
    match started {
        Some(at) => if at > now {
            None
        } else {
            holder(at, current, state_written, history, accounts)
        },
        None => None,
    }
}

/// The account whose key a process of the command-line client holds.
pub fn cli_account(
    snapshot: Option<i64>,
    created: Option<i64>,
    current: Option<String>,
    state_written: Option<i64>,
    history: &Vec<SwitchRecord>,
    accounts: &Vec<Account>,
    now: i64,
) -> (r: Option<String>)
    ensures
        text::opt_text(r) == key_holder(
            snapshot,
            created,
            text::opt_text(current),
            state_written,
            cli_switch_history::record_views(history@),
            crate::limit_report::account_views(accounts@),
            now,
        ),
{
    let started: i64 = match (snapshot, created) {
        (Some(at), _) => at,
        (None, Some(at)) => at,
        (None, None) => {
            return None;
        },
    };
    if started > now {
        return None;
    }
    let current_id = match current {
        Some(id) => id,
        None => {
            return None;
        },
    };
    let settled = match state_written {
        Some(at) => started >= at,
        None => false,
    };
    let id = if settled {
        current_id
    } else {
        match cli_switch_history::account_at(history, started) {
            Some(id) => id,
            None => {
                return None;
            },
        }
    };
    if account_exists(accounts, id.as_str()) {
        Some(id)
    } else {
        None
    }
}

/// What the files of the command-line client tell.
pub struct CliEvidence {
    /// The texts of the registry of processes.
    pub registry: Vec<String>,
    /// The first line of the event's transcript.
    pub transcript_head: Option<String>,
    /// The text of the client's state, and when it was written.
    pub state: Option<String>,
    pub state_written: Option<i64>,
    pub history: Vec<SwitchRecord>,
}

/// What a text of JSON that may be missing gives.
pub open spec fn from_opt_json<T>(
    t: Option<Seq<char>>,
    f: spec_fn(JsonView) -> Option<T>,
) -> Option<T> {
    match t {
        Some(s) => from_json(s, f),
        None => None,
    }
}

/// The account whose key the process of the event's session holds.
pub fn attribute_cli(
    session_id: &Option<String>,
    evidence: &CliEvidence,
    accounts: &Vec<Account>,
    now: i64,
) -> (r: Option<String>)
    ensures
        text::opt_text(r) == key_holder(
            snapshot_time(
                readable_roots(text::texts(evidence.registry@)),
                text::opt_text(*session_id),
                now,
            ),
            from_opt_json(
                text::opt_text(evidence.transcript_head),
                |root: JsonView| creation_time(root),
            ),
            from_opt_json(text::opt_text(evidence.state), |root: JsonView| active_account(root)),
            evidence.state_written,
            cli_switch_history::record_views(evidence.history@),
            crate::limit_report::account_views(accounts@),
            now,
        ),
{
    let snapshot: Option<i64> = session_snapshot_time(&evidence.registry, session_id, now);
    let created: Option<i64> = match &evidence.transcript_head {
        Some(line) => session_created_at(line.as_str()),
        None => None,
    };
    let current = match &evidence.state {
        Some(state) => cli_active_account_id(state.as_str()),
        None => None,
    };
    cli_account(
        snapshot,
        created,
        current,
        evidence.state_written,
        &evidence.history,
        accounts,
        now,
    )
}

/// The account of the user that is logged in.
pub open spec fn logged_in(uid: Option<Seq<char>>, accounts: Seq<AccountView>) -> Option<Seq<char>> {
    match uid {
        Some(u) => id_of_uid(accounts, u),
        None => None,
    }
}

/// The account of the user in the client's login.
pub fn login_account(login: &Option<String>, accounts: &Vec<Account>) -> (r: Option<String>)
    ensures
        text::opt_text(r) == logged_in(
            from_opt_json(text::opt_text(*login), |root: JsonView| login_uid(root)),
            crate::limit_report::account_views(accounts@),
        ),
{
    let uid = match login {
        Some(text) => auth_file_uid(text.as_str()),
        None => None,
    };
    match uid {
        Some(u) => account_id_by_uid(accounts, u.as_str()),
        None => None,
    }
}

/// The account of an event of the desktop client: that of the login, else that of the session,
/// where the event has one.
pub open spec fn desktop_account(
    by_login: Option<Seq<char>>,
    session_id: Option<Seq<char>>,
    by_session: Option<Seq<char>>,
) -> Option<Seq<char>> {
    if by_login is Some {
        by_login
    } else if session_id is Some {
        by_session
    } else {
        None
    }
}

/// What is known when an event is taken in.
pub struct Evidence {
    pub cli: CliEvidence,
    /// The text of the desktop client's login.
    pub login: Option<String>,
    /// The account of the event's session in the desktop client's database.
    pub by_session: Option<String>,
}

/// The account of an event, by the client that it comes from.
pub open spec fn attributed(
    session_id: Option<Seq<char>>,
    source: HookSource,
    evidence: Evidence,
    accounts: Seq<AccountView>,
    now: i64,
) -> Option<Seq<char>> {
    match source {
        HookSource::Cli => key_holder(
            snapshot_time(
                readable_roots(text::texts(evidence.cli.registry@)),
                session_id,
                now,
            ),
            from_opt_json(
                text::opt_text(evidence.cli.transcript_head),
                |root: JsonView| creation_time(root),
            ),
            from_opt_json(
                text::opt_text(evidence.cli.state),
                |root: JsonView| active_account(root),
            ),
            evidence.cli.state_written,
            cli_switch_history::record_views(evidence.cli.history@),
            accounts,
            now,
        ),
        HookSource::WorkBuddy(_) => desktop_account(
            logged_in(
                from_opt_json(text::opt_text(evidence.login), |root: JsonView| login_uid(root)),
                accounts,
            ),
            session_id,
            text::opt_text(evidence.by_session),
        ),
    }
}

/// The account of an event, by the client that it comes from; `None`, and the event is dropped,
/// where the account is not certain.
pub fn attribute(
    event: &QuotaEvent,
    source: HookSource,
    evidence: &Evidence,
    accounts: &Vec<Account>,
    now: i64,
) -> (r: Option<String>)
    ensures
        text::opt_text(r) == attributed(
            event@.session_id,
            source,
            *evidence,
            crate::limit_report::account_views(accounts@),
            now,
        ),
{
    match source {
        HookSource::Cli => attribute_cli(&event.session_id, &evidence.cli, accounts, now),
        HookSource::WorkBuddy(_) => {
            let by_login = login_account(&evidence.login, accounts);
            if by_login.is_some() {
                by_login
            } else if event.session_id.is_some() {
                evidence.by_session.clone()
            } else {
                None
            }
        },
    }
}

/// An event of the command-line client is only ever put down to an account that is known.
pub proof fn law_cli_event_goes_to_a_known_account(
    snapshot: Option<i64>,
    created: Option<i64>,
    current: Option<Seq<char>>,
    state_written: Option<i64>,
    history: Seq<RecordView>,
    accounts: Seq<AccountView>,
    now: i64,
)
    ensures
        key_holder(snapshot, created, current, state_written, history, accounts, now) matches Some(
            id,
        ) ==> has_account(accounts, id),
{
}

/// For a process that started after the client's state was last written, the history does not
/// matter: a record that is missing from it cannot put the event down to an earlier account.
pub proof fn law_state_outweighs_history(
    started: i64,
    current: Option<Seq<char>>,
    state_written: i64,
    history: Seq<RecordView>,
    other: Seq<RecordView>,
    accounts: Seq<AccountView>,
)
    requires
        started >= state_written,
    ensures
        holder(started, current, Some(state_written), history, accounts) == holder(
            started,
            current,
            Some(state_written),
            other,
            accounts,
        ),
{
}

/// For a process that started before the client's state was last written, the account that is
/// current now does not matter.
pub proof fn law_later_switch_does_not_reassign(
    started: i64,
    current: Seq<char>,
    other: Seq<char>,
    state_written: i64,
    history: Seq<RecordView>,
    accounts: Seq<AccountView>,
)
    requires
        started < state_written,
    ensures
        holder(started, Some(current), Some(state_written), history, accounts) == holder(
            started,
            Some(other),
            Some(state_written),
            history,
            accounts,
        ),
{
}

// ---------------------------------------------------------------------------
// The ledger
// ---------------------------------------------------------------------------

/// A refusal in the ledger.
#[derive(Clone, Debug, PartialEq, Eq)]
pub struct StoredEntry {
    pub account_id: String,
    pub model: Option<String>,
    pub reset_at: i64,
    pub first_seen_at: i64,
    pub hit_count: u32,
}

impl StoredEntry {
    pub open spec fn view(&self) -> ResolvedView {
        ResolvedView {
            account_id: self.account_id@,
            model: text::opt_text(self.model),
            reset_at: self.reset_at,
            first_seen_at: self.first_seen_at,
            hit_count: self.hit_count as nat,
        }
    }
}

pub open spec fn entry_views(entries: Seq<StoredEntry>) -> Seq<ResolvedView> {
    entries.map_values(|e: StoredEntry| e@)
}

/// The ledger: how much of the file of events has been read, when the last refusal was taken in,
/// and the refusals.
#[derive(Debug, PartialEq, Eq)]
pub struct State {
    pub offset: u64,
    pub last_event_at: Option<i64>,
    pub events: Vec<StoredEntry>,
}

impl State {
    /// An empty ledger.
    pub fn new() -> (r: State)
        ensures
            r.offset == 0,
            r.last_event_at is None,
            r.events@.len() == 0,
    {
        State { offset: 0, last_event_at: None, events: Vec::new() }
    }
}

/// Two entries are of one refusal: the account, the model and the reset are the same.
pub open spec fn same_entry(a: ResolvedView, b: ResolvedView) -> bool {
    a.account_id == b.account_id && a.model == b.model && a.reset_at == b.reset_at
}

/// The first position at or after `from` of an entry of the same refusal.
pub open spec fn entry_from(entries: Seq<ResolvedView>, entry: ResolvedView, from: int) -> Option<
    int,
>
    decreases entries.len() - from,
{
    if from < 0 || from >= entries.len() {
        None
    } else if same_entry(entries[from], entry) {
        Some(from)
    } else {
        entry_from(entries, entry, from + 1)
    }
}

/// The entry with another report of its refusal.
pub open spec fn reported_again(a: ResolvedView, b: ResolvedView) -> ResolvedView {
    ResolvedView {
        first_seen_at: if b.first_seen_at < a.first_seen_at {
            b.first_seen_at
        } else {
            a.first_seen_at
        },
        hit_count: a.hit_count + b.hit_count,
        ..a
    }
}

/// The entries with one more report.
pub open spec fn merged_entry(entries: Seq<ResolvedView>, entry: ResolvedView) -> Seq<
    ResolvedView,
> {
    match entry_from(entries, entry, 0) {
        Some(i) => entries.update(i, reported_again(entries[i], entry)),
        None => entries.push(entry),
    }
}

/// How many reports of the refusal have been taken in.
pub open spec fn tally(entries: Seq<ResolvedView>, refusal: ResolvedView) -> nat {
    match entry_from(entries, refusal, 0) {
        Some(i) => entries[i].hit_count,
        None => 0,
    }
}

/// How many of the reports are of the refusal.
pub open spec fn reports_of(added: Seq<ResolvedView>, refusal: ResolvedView) -> nat
    decreases added.len(),
{
    if added.len() == 0 {
        0
    } else {
        reports_of(added.drop_last(), refusal) + if same_entry(added.last(), refusal) {
            added.last().hit_count
        } else {
            0
        }
    }
}

/// Of no refusal are there more reports than 32 bits count, with the new ones.
pub open spec fn room_for(entries: Seq<ResolvedView>, added: Seq<ResolvedView>) -> bool {
    forall|refusal: ResolvedView| #[trigger]
        tally(entries, refusal) + reports_of(added, refusal) <= u32::MAX
}

/// Takes a report into the entries: one of a known refusal adds to it, another is a new entry.
pub fn merge_entry(events: &mut Vec<StoredEntry>, entry: StoredEntry)
    requires
        tally(entry_views(old(events)@), entry@) + entry.hit_count <= u32::MAX,
    ensures
        entry_views(final(events)@) == merged_entry(entry_views(old(events)@), entry@),
{
    let ghost before = entry_views(events@);
    let mut i: usize = 0;
    while i < events.len()
        invariant
            i <= events@.len(),
            before == entry_views(events@),
            events@ == old(events)@,
            tally(before, entry@) + entry.hit_count <= u32::MAX,
            entry_from(before, entry@, 0) == entry_from(before, entry@, i as int),
        decreases events@.len() - i,
    {
        assert(before[i as int] == events@[i as int]@);
        if events[i].reset_at == entry.reset_at && text::same_text(
            events[i].account_id.as_str(),
            entry.account_id.as_str(),
        ) && text::same_opt_text(&events[i].model, &entry.model) {
            let first_seen_at: i64 = if entry.first_seen_at < events[i].first_seen_at {
                entry.first_seen_at
            } else {
                events[i].first_seen_at
            };
            let grown = StoredEntry {
                account_id: events[i].account_id.clone(),
                model: events[i].model.clone(),
                reset_at: events[i].reset_at,
                first_seen_at,
                hit_count: events[i].hit_count + entry.hit_count,
            };
            let ghost g = grown@;
            events.set(i, grown);
            assert(entry_views(events@) =~= before.update(i as int, g));
            return;
        }
        i += 1;
    }
    let ghost e = entry@;
    events.push(entry);
    assert(entry_views(events@) =~= before.push(e));
}

/// The entries whose reset is still to come.
pub open spec fn live(entries: Seq<ResolvedView>, now: i64) -> Seq<ResolvedView>
    decreases entries.len(),
{
    if entries.len() == 0 {
        seq![]
    } else if entries.last().reset_at > now {
        live(entries.drop_last(), now).push(entries.last())
    } else {
        live(entries.drop_last(), now)
    }
}

/// Drops the entries whose reset has come.
pub fn drop_expired(state: &mut State, now: i64)
    ensures
        entry_views(final(state).events@) == live(entry_views(old(state).events@), now),
        final(state).offset == old(state).offset,
        final(state).last_event_at == old(state).last_event_at,
{
    let ghost views = entry_views(state.events@);
    let mut kept: Vec<StoredEntry> = Vec::new();
    let mut i: usize = 0;
    assert(entry_views(kept@) =~= seq![]);
    while i < state.events.len()
        invariant
            i <= state.events@.len(),
            *state == *old(state),
            views == entry_views(state.events@),
            entry_views(kept@) == live(views.take(i as int), now),
        decreases state.events@.len() - i,
    {
        let ghost before = entry_views(kept@);
        assert(views.take(i + 1).drop_last() =~= views.take(i as int));
        assert(views.take(i + 1).last() == state.events@[i as int]@);
        if state.events[i].reset_at > now {
            let entry = StoredEntry {
                account_id: state.events[i].account_id.clone(),
                model: state.events[i].model.clone(),
                reset_at: state.events[i].reset_at,
                first_seen_at: state.events[i].first_seen_at,
                hit_count: state.events[i].hit_count,
            };
            kept.push(entry);
            assert(entry_views(kept@) =~= before.push(entry@));
        }
        i += 1;
    }
    assert(views.take(state.events@.len() as int) =~= views);
    state.events = kept;
}

/// Drops the entries whose reset has come, and gives the others.
pub fn live_entries(state: &mut State, now: i64) -> (r: Vec<Resolved>)
    ensures
        entry_views(final(state).events@) == live(entry_views(old(state).events@), now),
        final(state).offset == old(state).offset,
        final(state).last_event_at == old(state).last_event_at,
        crate::order::ranks(r@) == live(entry_views(old(state).events@), now),
{
    drop_expired(state, now);
    let ghost views = entry_views(state.events@);
    let mut out: Vec<Resolved> = Vec::new();
    let mut i: usize = 0;
    while i < state.events.len()
        invariant
            i <= state.events@.len(),
            views == entry_views(state.events@),
            crate::order::ranks(out@) == views.take(i as int),
        decreases state.events@.len() - i,
    {
        let ghost before = crate::order::ranks(out@);
        let item = Resolved {
            account_id: state.events[i].account_id.clone(),
            model: state.events[i].model.clone(),
            reset_at: state.events[i].reset_at,
            first_seen_at: state.events[i].first_seen_at,
            hit_count: state.events[i].hit_count,
        };
        out.push(item);
        assert(crate::order::ranks(out@) =~= before.push(item@));
        assert(views.take(i + 1) =~= views.take(i as int).push(views[i as int]));
        i += 1;
    }
    assert(views.take(state.events@.len() as int) =~= views);
    out
}

/// When the last refusal was taken in: as the ledger in memory has it, or where there is none,
/// the one that was stored.
pub fn last_event_at(held: &Option<State>, stored: &Option<State>) -> (r: Option<i64>)
    ensures
        r == match (*held, *stored) {
            (Some(h), _) => h.last_event_at,
            (None, Some(s)) => s.last_event_at,
            (None, None) => None,
        },
{
    match (held, stored) {
        (Some(h), _) => h.last_event_at,
        (None, Some(s)) => s.last_event_at,
        (None, None) => None,
    }
}

/// Whether refusals are reported to the user; so they are unless the setting says no.
pub fn rate_limit_enabled(config: &Json) -> (r: bool)
    ensures
        r == (json::field(config@, "enabled"@) != Some(JsonView::Bool(false))),
{
    match config.get("enabled") {
        Some(Json::Bool(b)) => *b,
        _ => true,
    }
}

// ---------------------------------------------------------------------------
// Reading the file of events
// ---------------------------------------------------------------------------

/// How many of the bytes belong to lines that are complete.
pub open spec fn complete(bytes: Seq<u8>) -> int
    decreases bytes.len(),
{
    if bytes.len() == 0 {
        0
    } else if bytes.last() == 10 {
        bytes.len() as int
    } else {
        complete(bytes.drop_last())
    }
}

proof fn lemma_complete(bytes: Seq<u8>)
    ensures
        0 <= complete(bytes) <= bytes.len(),
        complete(bytes) > 0 ==> bytes[complete(bytes) - 1] == 10,
        forall|i: int| complete(bytes) <= i < bytes.len() ==> #[trigger] bytes[i] != 10,
    decreases bytes.len(),
{
    if bytes.len() > 0 && bytes.last() != 10 {
        lemma_complete(bytes.drop_last());
        assert forall|i: int| complete(bytes) <= i < bytes.len() implies #[trigger] bytes[i]
            != 10 by {
            if i < bytes.len() - 1 {
                assert(bytes.drop_last()[i] == bytes[i]);
            }
        }
    }
}

/// The lines of the bytes that are complete, and what follows them.
pub open spec fn split(bytes: Seq<u8>) -> (Seq<Seq<u8>>, Seq<u8>)
    decreases bytes.len(),
{
    if bytes.len() == 0 {
        (seq![], seq![])
    } else {
        let before = split(bytes.drop_last());
        if bytes.last() == 10 {
            (before.0.push(before.1), seq![])
        } else {
            (before.0, before.1.push(bytes.last()))
        }
    }
}

/// The lines as text.
pub open spec fn lossy_lines(lines: Seq<Seq<u8>>) -> Seq<Seq<char>> {
    lines.map_values(|l: Seq<u8>| text::lossy_text(l))
}

/// The lines that have been read from the bytes: those that are complete and not blank.
pub open spec fn read_lines(bytes: Seq<u8>) -> Seq<Seq<char>> {
    text::filled(lossy_lines(split(bytes).0))
}

proof fn lemma_split(bytes: Seq<u8>)
    ensures
        split(bytes).1 == bytes.skip(complete(bytes)),
        forall|i: int| 0 <= i < split(bytes).1.len() ==> #[trigger] split(bytes).1[i] != 10,
    decreases bytes.len(),
{
    lemma_complete(bytes);
    if bytes.len() > 0 {
        lemma_split(bytes.drop_last());
        lemma_complete(bytes.drop_last());
    }
    assert(split(bytes).1 =~= bytes.skip(complete(bytes)));
}

/// Bytes that are added after others are split with what followed the lines of those.
proof fn lemma_split_concat(a: Seq<u8>, b: Seq<u8>)
    ensures
        split(a + b).0 == split(a).0 + split(split(a).1 + b).0,
        split(a + b).1 == split(split(a).1 + b).1,
    decreases b.len(),
{
    let c = split(a).1;
    if b.len() == 0 {
        assert(a + b =~= a);
        assert(c + b =~= c);
        lemma_split(a);
        lemma_split_without_feed(c);
        assert(split(a).0 + split(c).0 =~= split(a).0);
    } else {
        assert((a + b).drop_last() =~= a + b.drop_last());
        assert((c + b).drop_last() =~= c + b.drop_last());
        assert((a + b).last() == b.last() && (c + b).last() == b.last());
        lemma_split_concat(a, b.drop_last());
        assert(split(a + b).0 =~= split(a).0 + split(c + b).0);
    }
}

proof fn lemma_split_without_feed(bytes: Seq<u8>)
    requires
        forall|i: int| 0 <= i < bytes.len() ==> #[trigger] bytes[i] != 10,
    ensures
        split(bytes).0 == Seq::<Seq<u8>>::empty(),
        split(bytes).1 == bytes,
    decreases bytes.len(),
{
    if bytes.len() > 0 {
        let front = bytes.drop_last();
        assert forall|i: int| 0 <= i < front.len() implies #[trigger] front[i] != 10 by {
            assert(front[i] == bytes[i]);
        }
        lemma_split_without_feed(front);
        assert(front.push(bytes.last()) =~= bytes);
    }
}

/// What is read of the bytes is in UTF-8.
pub open spec fn reads_utf8(bytes: Seq<u8>) -> bool {
    vstd::utf8::valid_utf8(bytes.take(complete(bytes)))
}

/// The lines that have been read from bytes in UTF-8.
pub open spec fn utf8_lines(bytes: Seq<u8>) -> Seq<Seq<char>> {
    if complete(bytes) == 0 {
        seq![]
    } else {
        text::filled(text::text_lines(vstd::utf8::decode_utf8(bytes.take(complete(bytes) - 1))))
    }
}

/// A line in UTF-8 is read as what it stands for.
spec fn decodes(line: Seq<u8>) -> bool {
    vstd::utf8::valid_utf8(line) ==> text::lossy_text(line) == vstd::utf8::decode_utf8(line)
}

/// The lines of bytes in UTF-8 can be decoded one by one.
proof fn lemma_utf8_lines(bytes: Seq<u8>)
    requires
        reads_utf8(bytes),
    ensures
        forall|i: int|
            0 <= i < split(bytes).0.len() ==> vstd::utf8::valid_utf8(#[trigger] split(bytes).0[i]),
        utf8_lines(bytes) == text::filled(
            split(bytes).0.map_values(|l: Seq<u8>| vstd::utf8::decode_utf8(l)),
        ),
    decreases bytes.len(),
{
    let decode = |l: Seq<u8>| vstd::utf8::decode_utf8(l);
    let all = split(bytes).0;
    if bytes.len() == 0 {
        assert(all.map_values(decode) =~= seq![]);
    } else if bytes.last() != 10 {
        let front = bytes.drop_last();
        lemma_complete(front);
        let c = complete(bytes);
        assert(bytes.take(c) =~= front.take(c));
        if c > 0 {
            assert(bytes.take(c - 1) =~= front.take(c - 1));
        }
        lemma_utf8_lines(front);
    } else {
        let front = bytes.drop_last();
        let c = complete(front);
        let line = split(front).1;
        let none = Seq::<u8>::empty();
        lemma_complete(front);
        lemma_split(front);
        assert(bytes.take(bytes.len() as int) =~= front + seq![10u8] + none);
        text::lemma_decode_at_line_feed(front, none);
        assert(bytes.take(bytes.len() - 1) =~= front);
        if c == 0 {
            assert(front.take(0) =~= none);
            assert(line =~= front);
        } else {
            let head = front.take(c - 1);
            assert(front =~= head + seq![10u8] + line);
            text::lemma_decode_at_line_feed(head, line);
            text::lemma_line_feed_after(head);
            assert(front.take(c) =~= head + seq![10u8]);
            text::lemma_filled_split(
                vstd::utf8::decode_utf8(head),
                vstd::utf8::decode_utf8(line),
            );
        }
        lemma_utf8_lines(front);
        text::lemma_no_line_feed(line);
        let before = split(front).0;
        assert(all == before.push(line));
        assert(all.map_values(decode) =~= before.map_values(decode) + seq![decode(line)]);
        text::lemma_filled_concat(before.map_values(decode), seq![decode(line)]);
        if c == 0 {
            assert(utf8_lines(front) =~= seq![]);
            assert(utf8_lines(front) + text::filled(seq![decode(line)]) =~= text::filled(
                seq![decode(line)],
            ));
        }
    }
}

/// The complete lines, and how many bytes they take; each line is decoded by itself. A line that
/// is still being written is left for the next time.
pub fn complete_lines(bytes: &[u8]) -> (r: (Vec<String>, u64))
    ensures
        text::texts(r.0@) == read_lines(bytes@),
        reads_utf8(bytes@) ==> text::texts(r.0@) == utf8_lines(bytes@),
        r.1 == complete(bytes@),
{
    let mut out: Vec<String> = Vec::new();
    let mut start: usize = 0;
    let mut i: usize = 0;
    assert(bytes@.take(0) =~= seq![]);
    assert(bytes@.subrange(0, 0) =~= seq![]);
    assert(text::texts(out@) =~= seq![]);
    assert(lossy_lines(split(bytes@.take(0)).0) =~= seq![]);
    while i < bytes.len()
        invariant
            start <= i <= bytes@.len(),
            start == complete(bytes@.take(i as int)),
            split(bytes@.take(i as int)).1 == bytes@.subrange(start as int, i as int),
            text::texts(out@) == text::filled(lossy_lines(split(bytes@.take(i as int)).0)),
            forall|k: int|
                0 <= k < split(bytes@.take(i as int)).0.len() ==> decodes(
                    #[trigger] split(bytes@.take(i as int)).0[k],
                ),
        decreases bytes@.len() - i,
    {
        let ghost before = bytes@.take(i as int);
        let ghost after = bytes@.take(i + 1);
        assert(after.drop_last() =~= before);
        assert(after.last() == bytes@[i as int]);
        if bytes[i] == 10 {
            let part = slice_subrange(bytes, start, i);
            let line = text::decode_lossy(part);
            let ghost done = split(before).0;
            let ghost kept = text::texts(out@);
            let trimmed = text::trimmed_text(line.as_str());
            proof {
                let lines = lossy_lines(split(after).0);
                assert(split(after).0 == done.push(part@));
                assert(lines.drop_last() =~= lossy_lines(done));
                assert(lines.last() == line@);
            }
            let n: usize = text::chars_of(trimmed.as_str()).len();
            if n > 0 {
                let ghost t = trimmed@;
                out.push(trimmed);
                assert(text::texts(out@) =~= kept.push(t));
            }
            assert forall|k: int| 0 <= k < split(after).0.len() implies decodes(
                #[trigger] split(after).0[k],
            ) by {
                if k < done.len() {
                    assert(split(after).0[k] == done[k]);
                }
            }
            start = i + 1;
            assert(bytes@.subrange(start as int, i + 1) =~= seq![]);
        } else {
            assert(bytes@.subrange(start as int, i + 1) =~= bytes@.subrange(
                start as int,
                i as int,
            ).push(bytes@[i as int]));
        }
        i += 1;
    }
    assert(bytes@.take(bytes@.len() as int) =~= bytes@);
    proof {
        if reads_utf8(bytes@) {
            let lines = split(bytes@).0;
            lemma_utf8_lines(bytes@);
            assert forall|k: int| 0 <= k < lines.len() implies #[trigger] lossy_lines(lines)[k]
                == vstd::utf8::decode_utf8(lines[k]) by {
                assert(decodes(lines[k]));
            }
            assert(lossy_lines(lines) =~= lines.map_values(
                |l: Seq<u8>| vstd::utf8::decode_utf8(l),
            ));
        }
    }
    (out, start as u64)
}

/// Whether the file of events has bytes that have not been read, given its length where it is
/// there.
pub fn has_pending_bytes(len: Option<u64>, offset: u64) -> (r: bool)
    ensures
        r == (len is Some && len->0 != offset),
{
    match len {
        Some(n) => n != offset,
        None => false,
    }
}

/// From where on a file of events of the given length is read: where it has become shorter than
/// what was read, from the start.
pub open spec fn resume_at(len: int, offset: u64) -> int {
    if len < offset {
        0
    } else {
        offset as int
    }
}

/// The complete lines of the file of events that have not been read, and how many bytes they
/// take; `None` where there are no new bytes. A file that was cut short is read from the start.
pub fn pending_lines(state: &mut State, bytes: &[u8]) -> (r: Option<(Vec<String>, u64)>)
    ensures
        final(state).offset == resume_at(bytes@.len() as int, old(state).offset),
        final(state).events == old(state).events,
        final(state).last_event_at == old(state).last_event_at,
        match r {
            Some(p) => {
                let rest = bytes@.skip(resume_at(bytes@.len() as int, old(state).offset));
                &&& rest.len() > 0
                &&& text::texts(p.0@) == read_lines(rest)
                &&& reads_utf8(rest) ==> text::texts(p.0@) == utf8_lines(rest)
                &&& p.1 == complete(rest)
                &&& final(state).offset + p.1 <= bytes@.len() <= u64::MAX
            },
            None => bytes@.len() == resume_at(bytes@.len() as int, old(state).offset),
        },
{
    let len: usize = bytes.len();
    if (len as u64) < state.offset {
        state.offset = 0;
    }
    if len as u64 == state.offset {
        return None;
    }
    let start: usize = state.offset as usize;
    let rest = slice_subrange(bytes, start, len);
    assert(rest@ =~= bytes@.skip(start as int));
    proof {
        lemma_complete(rest@);
    }
    Some(complete_lines(rest))
}

/// A report, and the account that it was put down to.
pub struct Attributed {
    pub event: QuotaEvent,
    pub account_id: Option<String>,
}

/// The entries that the reports with an account make.
pub open spec fn new_entries(reports: Seq<Attributed>, now: i64) -> Seq<ResolvedView>
    decreases reports.len(),
{
    if reports.len() == 0 {
        seq![]
    } else {
        let before = new_entries(reports.drop_last(), now);
        let last = reports.last();
        match last.account_id {
            Some(id) => before.push(
                ResolvedView {
                    account_id: id@,
                    model: last.event@.model,
                    reset_at: last.event.reset_at,
                    first_seen_at: now,
                    hit_count: 1,
                },
            ),
            None => before,
        }
    }
}

/// The entries with all the reports taken in.
pub open spec fn all_merged(entries: Seq<ResolvedView>, added: Seq<ResolvedView>) -> Seq<
    ResolvedView,
>
    decreases added.len(),
{
    if added.len() == 0 {
        entries
    } else {
        merged_entry(all_merged(entries, added.drop_last()), added.last())
    }
}

proof fn lemma_entry_from(entries: Seq<ResolvedView>, entry: ResolvedView, from: int)
    requires
        0 <= from,
    ensures
        entry_from(entries, entry, from) matches Some(i) ==> from <= i < entries.len()
            && same_entry(entries[i], entry) && forall|j: int|
            from <= j < i ==> !same_entry(#[trigger] entries[j], entry),
        entry_from(entries, entry, from) is None ==> forall|j: int|
            from <= j < entries.len() ==> !same_entry(#[trigger] entries[j], entry),
    decreases entries.len() - from,
{
    if from < entries.len() && !same_entry(entries[from], entry) {
        lemma_entry_from(entries, entry, from + 1);
    }
}

proof fn lemma_first_entry(entries: Seq<ResolvedView>, entry: ResolvedView, i: int)
    requires
        0 <= i < entries.len(),
        same_entry(entries[i], entry),
        forall|j: int| 0 <= j < i ==> !same_entry(#[trigger] entries[j], entry),
    ensures
        entry_from(entries, entry, 0) == Some(i),
{
    lemma_entry_from(entries, entry, 0);
}

proof fn lemma_tally_merged(
    entries: Seq<ResolvedView>,
    entry: ResolvedView,
    refusal: ResolvedView,
)
    ensures
        tally(merged_entry(entries, entry), refusal) == tally(entries, refusal) + if same_entry(
            entry,
            refusal,
        ) {
            entry.hit_count
        } else {
            0
        },
{
    lemma_entry_from(entries, entry, 0);
    lemma_entry_from(entries, refusal, 0);
    let all = merged_entry(entries, entry);
    lemma_entry_from(all, refusal, 0);
    let n = entries.len() as int;
    match (entry_from(entries, entry, 0), entry_from(entries, refusal, 0)) {
        (Some(i), Some(k)) => {
            assert forall|j: int| 0 <= j < k implies !same_entry(#[trigger] all[j], refusal) by {
                assert(!same_entry(entries[j], refusal));
            }
            if same_entry(entry, refusal) {
                if i < k {
                    assert(!same_entry(entries[i], refusal));
                }
                if k < i {
                    assert(!same_entry(entries[k], entry));
                }
            }
            lemma_first_entry(all, refusal, k);
        },
        (Some(i), None) => {
            assert(!same_entry(entries[i], refusal));
            assert forall|j: int| 0 <= j < all.len() implies !same_entry(
                #[trigger] all[j],
                refusal,
            ) by {
                assert(!same_entry(entries[j], refusal));
            }
        },
        (None, Some(k)) => {
            assert(!same_entry(entries[k], entry));
            assert forall|j: int| 0 <= j < k implies !same_entry(#[trigger] all[j], refusal) by {
                assert(!same_entry(entries[j], refusal));
            }
            lemma_first_entry(all, refusal, k);
        },
        (None, None) => {
            assert forall|j: int| 0 <= j < n implies !same_entry(#[trigger] all[j], refusal) by {
                assert(!same_entry(entries[j], refusal));
            }
            if same_entry(entry, refusal) {
                lemma_first_entry(all, refusal, n);
            }
        },
    }
}

/// Each report with an account counts once, for the refusal that it is of.
pub proof fn law_each_report_counts_once(
    entries: Seq<ResolvedView>,
    added: Seq<ResolvedView>,
    refusal: ResolvedView,
)
    ensures
        tally(all_merged(entries, added), refusal) == tally(entries, refusal) + reports_of(
            added,
            refusal,
        ),
    decreases added.len(),
{
    if added.len() > 0 {
        law_each_report_counts_once(entries, added.drop_last(), refusal);
        lemma_tally_merged(all_merged(entries, added.drop_last()), added.last(), refusal);
    }
}

proof fn lemma_reports_grow(reports: Seq<Attributed>, k: int, now: i64, refusal: ResolvedView)
    requires
        0 <= k <= reports.len(),
    ensures
        reports_of(new_entries(reports.take(k), now), refusal) <= reports_of(
            new_entries(reports, now),
            refusal,
        ),
    decreases reports.len(),
{
    if k < reports.len() {
        let front = reports.drop_last();
        assert(front.take(k) =~= reports.take(k));
        lemma_reports_grow(front, k, now, refusal);
        let before = new_entries(front, now);
        let all = new_entries(reports, now);
        if reports.last().account_id is Some {
            assert(all.drop_last() =~= before);
        }
    } else {
        assert(reports.take(k) =~= reports);
    }
}

/// Takes the reports with an account into the ledger; whether there was any.
pub fn ingest_lines(state: &mut State, reports: &Vec<Attributed>, now: i64) -> (r: bool)
    requires
        room_for(entry_views(old(state).events@), new_entries(reports@, now)),
    ensures
        entry_views(final(state).events@) == all_merged(
            entry_views(old(state).events@),
            new_entries(reports@, now),
        ),
        final(state).offset == old(state).offset,
        r == (new_entries(reports@, now).len() > 0),
        final(state).last_event_at == if new_entries(reports@, now).len() > 0 {
            Some(now)
        } else {
            old(state).last_event_at
        },
{
    let ghost start = entry_views(state.events@);
    let mut added = false;
    let mut i: usize = 0;
    while i < reports.len()
        invariant
            i <= reports@.len(),
            room_for(start, new_entries(reports@, now)),
            entry_views(state.events@) == all_merged(
                start,
                new_entries(reports@.take(i as int), now),
            ),
            state.offset == old(state).offset,
            state.last_event_at == old(state).last_event_at,
            added == (new_entries(reports@.take(i as int), now).len() > 0),
        decreases reports@.len() - i,
    {
        let ghost before = entry_views(state.events@);
        let ghost prior = new_entries(reports@.take(i as int), now);
        assert(reports@.take(i + 1).drop_last() =~= reports@.take(i as int));
        assert(reports@.take(i + 1).last() == reports@[i as int]);
        match &reports[i].account_id {
            Some(id) => {
                let entry = StoredEntry {
                    account_id: id.clone(),
                    model: reports[i].event.model.clone(),
                    reset_at: reports[i].event.reset_at,
                    first_seen_at: now,
                    hit_count: 1,
                };
                proof {
                    assert(prior.push(entry@).drop_last() =~= prior);
                    law_each_report_counts_once(start, prior, entry@);
                    lemma_reports_grow(reports@, i + 1, now, entry@);
                    assert(reports_of(prior.push(entry@), entry@) == reports_of(prior, entry@) + 1);
                    assert(tally(start, entry@) + reports_of(new_entries(reports@, now), entry@)
                        <= u32::MAX);
                }
                merge_entry(&mut state.events, entry);
                added = true;
            },
            None => {},
        }
        i += 1;
    }
    assert(reports@.take(reports@.len() as int) =~= reports@);
    if added {
        state.last_event_at = Some(now);
    }
    added
}

/// Takes in the reports of the lines that were read, and puts down that so many bytes more have
/// been read; whether an account was limited.
pub fn consume_with(state: &mut State, reports: &Vec<Attributed>, consumed: u64, now: i64) -> (r:
    bool)
    requires
        room_for(entry_views(old(state).events@), new_entries(reports@, now)),
        old(state).offset + consumed <= u64::MAX,
    ensures
        entry_views(final(state).events@) == all_merged(
            entry_views(old(state).events@),
            new_entries(reports@, now),
        ),
        final(state).offset == old(state).offset + consumed,
        r == (new_entries(reports@, now).len() > 0),
        final(state).last_event_at == if new_entries(reports@, now).len() > 0 {
            Some(now)
        } else {
            old(state).last_event_at
        },
{
    let added = ingest_lines(state, reports, now);
    state.offset = state.offset + consumed;
    added
}

/// Whether the file of events is to be put aside: it is long enough, and, as far as its length
/// is known, it has been read to its end.
pub fn should_rotate(offset: u64, len: Option<u64>) -> (r: bool)
    ensures
        r == (offset >= COMPACT_AFTER_BYTES && (len is None || len->0 == offset)),
        r ==> offset >= 1_048_576,
        offset >= 1_048_576 && (len is None || len->0 == offset) ==> r,
{
    offset >= COMPACT_AFTER_BYTES && !has_pending_bytes(len, offset)
}

/// The complete lines behind what was read of a file of events that was put aside.
pub fn rotated_lines(offset: u64, bytes: &[u8]) -> (r: Vec<String>)
    ensures
        text::texts(r@) == if bytes@.len() > offset {
            read_lines(bytes@.skip(offset as int))
        } else {
            seq![]
        },
        bytes@.len() > offset && reads_utf8(bytes@.skip(offset as int)) ==> text::texts(r@)
            == utf8_lines(bytes@.skip(offset as int)),
{
    let len: usize = bytes.len();
    if len as u64 > offset {
        let start: usize = offset as usize;
        let rest = slice_subrange(bytes, start, len);
        assert(rest@ =~= bytes@.skip(start as int));
        complete_lines(rest).0
    } else {
        let none: Vec<String> = Vec::new();
        assert(text::texts(none@) =~= seq![]);
        none
    }
}

/// Takes in the reports of the lines at the end of a file of events that was put aside, and
/// starts over with a new file; whether an account was limited.
pub fn compact_with(state: &mut State, reports: &Vec<Attributed>, now: i64) -> (r: bool)
    requires
        room_for(entry_views(old(state).events@), new_entries(reports@, now)),
    ensures
        entry_views(final(state).events@) == all_merged(
            entry_views(old(state).events@),
            new_entries(reports@, now),
        ),
        final(state).offset == 0,
        r == (new_entries(reports@, now).len() > 0),
        final(state).last_event_at == if new_entries(reports@, now).len() > 0 {
            Some(now)
        } else {
            old(state).last_event_at
        },
{
    let added = ingest_lines(state, reports, now);
    state.offset = 0;
    added
}

// ---------------------------------------------------------------------------
// Laws of the ledger
// ---------------------------------------------------------------------------

/// A line that is still being written is not taken: no line ends behind what was read, and where
/// something was read, it ends with a line.
pub proof fn law_only_complete_lines_are_read(bytes: Seq<u8>)
    ensures
        0 <= complete(bytes) <= bytes.len(),
        complete(bytes) > 0 ==> bytes[complete(bytes) - 1] == 10,
        forall|i: int| complete(bytes) <= i < bytes.len() ==> #[trigger] bytes[i] != 10,
{
    lemma_complete(bytes);
}

/// What is read of a file is read as lines that are not blank, without white space around them.
pub proof fn law_lines_are_trimmed(bytes: Seq<u8>, i: int)
    requires
        0 <= i < read_lines(bytes).len(),
    ensures
        read_lines(bytes)[i].len() > 0,
        text::trim(read_lines(bytes)[i]) == read_lines(bytes)[i],
{
    text::lemma_filled(lossy_lines(split(bytes).0));
}

/// To read a file in two steps, as it grows, is to read it at once: as many bytes are read, and
/// the same lines in the same order.
pub proof fn law_reading_resumes_where_it_ended(first: Seq<u8>, more: Seq<u8>)
    ensures
        ({
            let all = first + more;
            let rest = all.skip(complete(first));
            &&& complete(first) + complete(rest) == complete(all)
            &&& read_lines(all) == read_lines(first) + read_lines(rest)
        }),
{
    let all = first + more;
    let c = complete(first);
    let rest = all.skip(c);
    lemma_complete(first);
    lemma_complete(all);
    lemma_complete(rest);
    let d = complete(all);
    if c + complete(rest) < d {
        assert(rest[d - 1 - c] == all[d - 1]);
    } else if c + complete(rest) > d {
        if complete(rest) > 0 {
            assert(all[c + complete(rest) - 1] == rest[complete(rest) - 1]);
        } else {
            assert(all[c - 1] == first[c - 1]);
        }
    }
    lemma_split(first);
    lemma_split_concat(first, more);
    assert(rest =~= split(first).1 + more);
    let a = lossy_lines(split(first).0);
    let b = lossy_lines(split(rest).0);
    assert(lossy_lines(split(all).0) =~= a + b);
    text::lemma_filled_concat(a, b);
}

/// No two entries are of one refusal.
pub open spec fn entries_distinct(entries: Seq<ResolvedView>) -> bool {
    forall|i: int, j: int|
        0 <= i < j < entries.len() ==> !same_entry(#[trigger] entries[i], #[trigger] entries[j])
}

/// A refusal stands in the ledger once, however often it is reported.
pub proof fn law_merge_keeps_entries_distinct(entries: Seq<ResolvedView>, entry: ResolvedView)
    requires
        entries_distinct(entries),
    ensures
        entries_distinct(merged_entry(entries, entry)),
{
    lemma_entry_from(entries, entry, 0);
    let all = merged_entry(entries, entry);
    assert forall|i: int, j: int| 0 <= i < j < all.len() implies !same_entry(
        #[trigger] all[i],
        #[trigger] all[j],
    ) by {
        if j < entries.len() {
            assert(!same_entry(entries[i], entries[j]));
        } else {
            assert(!same_entry(entries[i], entry));
        }
    }
}

/// Some entry is of the refusal.
pub open spec fn holds_entry(entries: Seq<ResolvedView>, entry: ResolvedView) -> bool {
    exists|i: int| 0 <= i < entries.len() && same_entry(#[trigger] entries[i], entry)
}

proof fn lemma_merge_holds(
    entries: Seq<ResolvedView>,
    entry: ResolvedView,
    other: ResolvedView,
)
    ensures
        holds_entry(merged_entry(entries, entry), entry),
        holds_entry(entries, other) ==> holds_entry(merged_entry(entries, entry), other),
        holds_entry(entries, entry) ==> merged_entry(entries, entry).len() == entries.len(),
{
    lemma_entry_from(entries, entry, 0);
    let all = merged_entry(entries, entry);
    match entry_from(entries, entry, 0) {
        Some(i) => {
            assert(same_entry(all[i], entry));
        },
        None => {
            assert(same_entry(all[entries.len() as int], entry));
        },
    }
    if holds_entry(entries, other) {
        let k = choose|k: int| 0 <= k < entries.len() && same_entry(#[trigger] entries[k], other);
        assert(same_entry(all[k], other));
    }
}

proof fn lemma_all_merged_holds(
    entries: Seq<ResolvedView>,
    added: Seq<ResolvedView>,
    other: ResolvedView,
)
    ensures
        holds_entry(entries, other) ==> holds_entry(all_merged(entries, added), other),
        forall|i: int|
            0 <= i < added.len() ==> holds_entry(
                all_merged(entries, added),
                #[trigger] added[i],
            ),
    decreases added.len(),
{
    if added.len() > 0 {
        let front = added.drop_last();
        lemma_all_merged_holds(entries, front, other);
        let before = all_merged(entries, front);
        lemma_merge_holds(before, added.last(), other);
        assert forall|i: int| 0 <= i < added.len() implies holds_entry(
            all_merged(entries, added),
            #[trigger] added[i],
        ) by {
            if i < front.len() {
                assert(front[i] == added[i]);
                lemma_merge_holds(before, added.last(), added[i]);
            }
        }
    }
}

proof fn lemma_held_adds_nothing(entries: Seq<ResolvedView>, added: Seq<ResolvedView>)
    requires
        forall|i: int| 0 <= i < added.len() ==> holds_entry(entries, #[trigger] added[i]),
    ensures
        all_merged(entries, added).len() == entries.len(),
    decreases added.len(),
{
    if added.len() > 0 {
        let front = added.drop_last();
        assert forall|i: int| 0 <= i < front.len() implies holds_entry(
            entries,
            #[trigger] front[i],
        ) by {
            assert(front[i] == added[i]);
        }
        lemma_held_adds_nothing(entries, front);
        lemma_all_merged_holds(entries, front, added.last());
        assert(holds_entry(entries, added[added.len() - 1]));
        lemma_merge_holds(all_merged(entries, front), added.last(), added.last());
    }
}

/// To take in the same reports a second time, as after a file that was cut short, adds no entry.
pub proof fn law_reports_read_again_add_no_entry(
    entries: Seq<ResolvedView>,
    added: Seq<ResolvedView>,
)
    ensures
        all_merged(all_merged(entries, added), added).len() == all_merged(entries, added).len(),
{
    if added.len() > 0 {
        lemma_all_merged_holds(entries, added, added[0]);
    }
    lemma_held_adds_nothing(all_merged(entries, added), added);
}

/// What is given of the ledger still holds, and nothing that still holds is left out.
pub proof fn law_live_entries(entries: Seq<ResolvedView>, now: i64, x: ResolvedView)
    ensures
        live(entries, now).contains(x) <==> entries.contains(x) && x.reset_at > now,
    decreases entries.len(),
{
    if entries.len() > 0 {
        let front = entries.drop_last();
        let last = entries.last();
        law_live_entries(front, now, x);
        let l = live(front, now);
        let all = live(entries, now);
        if all.contains(x) {
            let k = choose|k: int| 0 <= k < all.len() && all[k] == x;
            if k < l.len() {
                assert(l[k] == x);
                let m = choose|m: int| 0 <= m < front.len() && front[m] == x;
                assert(entries[m] == x);
            } else {
                assert(entries[entries.len() - 1] == x);
            }
        }
        if entries.contains(x) && x.reset_at > now {
            let m = choose|m: int| 0 <= m < entries.len() && entries[m] == x;
            if m < front.len() {
                assert(front[m] == x);
                let k = choose|k: int| 0 <= k < l.len() && l[k] == x;
                assert(all[k] == x);
            } else {
                assert(all[all.len() - 1] == x);
            }
        }
    }
}

/// A report tells of a refusal wherever its message holds the Chinese or the English words of
/// one, the time of the reset is known and a transcript is named; and nowhere else. What it tells
/// is that time, and the report's own transcript and session.
pub proof fn law_refusal_is_told_in_either_language(payload: HookPayload, reset_at: Option<i64>)
    ensures
        ({
            let refused = match payload.last_assistant_message {
                Some(message) => text::includes(message@, "超出频率限制"@) || text::includes(
                    message@,
                    "usage exceeds frequency limit"@,
                ),
                None => false,
            };
            let told = event_told(payload, reset_at);
            &&& told is Some <==> refused && reset_at is Some && payload.transcript_path is Some
            &&& told matches Some(e) ==> {
                &&& reset_at == Some(e.reset_at)
                &&& payload.transcript_path->0@ == e.transcript_path
                &&& match payload.session_id {
                    Some(session) => e.session_id == Some(session@),
                    None => e.session_id is None,
                }
            }
        }),
{
}

/// A model is taken as it is named, unless it is blank or one of the three words that stand for
/// none.
pub proof fn law_model_is_taken_as_named(payload: HookPayload, reset_at: Option<i64>, model: Seq<
    char,
>)
    requires
        event_told(payload, reset_at) is Some,
    ensures
        event_told(payload, reset_at)->0.model == Some(model) <==> payload.model is Some
            && payload.model->0@ == model && text::trim(model).len() > 0 && model != "auto"@ && model
            != "undefined"@ && model != "null"@,
{
}

/// A report comes from the client of the first directory that holds its transcript; from none
/// where no directory does.
pub proof fn law_source_is_the_first_that_fits(
    transcript: Seq<char>,
    roots: Seq<(FilePath, HookSource)>,
    k: int,
)
    ensures
        0 <= k < roots.len() && path::lies_in(transcript, roots[k].0.text@, roots[k].0.style) && (
        forall|j: int|
            0 <= j < k ==> !path::lies_in(
                transcript,
                (#[trigger] roots[j]).0.text@,
                roots[j].0.style,
            )) ==> source_in(transcript, roots) == Some(roots[k].1),
        (forall|j: int|
            0 <= j < roots.len() ==> !path::lies_in(
                transcript,
                (#[trigger] roots[j]).0.text@,
                roots[j].0.style,
            )) ==> source_in(transcript, roots) is None,
    decreases roots.len(),
{
    if roots.len() > 0 {
        let rest = roots.drop_first();
        assert forall|j: int| 0 <= j < rest.len() implies #[trigger] rest[j] == roots[j + 1] by {}
        law_source_is_the_first_that_fits(transcript, rest, k - 1);
    }
}

/// A user is looked up among the accounts in their order: the first account with the user id
/// gives its own id, and without one there is none.
pub proof fn law_user_is_looked_up_in_order(accounts: Seq<AccountView>, uid: Seq<char>, k: int)
    ensures
        0 <= k < accounts.len() && accounts[k].uid == Some(uid) && (forall|j: int|
            0 <= j < k ==> (#[trigger] accounts[j]).uid != Some(uid)) ==> id_of_uid(accounts, uid)
            == accounts[k].id,
        (forall|j: int| 0 <= j < accounts.len() ==> (#[trigger] accounts[j]).uid != Some(uid))
            ==> id_of_uid(accounts, uid) is None,
    decreases accounts.len(),
{
    if accounts.len() > 0 {
        let rest = accounts.drop_first();
        assert forall|j: int| 0 <= j < rest.len() implies #[trigger] rest[j] == accounts[j + 1] by {
        }
        law_user_is_looked_up_in_order(rest, uid, k - 1);
    }
}

/// A text that is not blank is taken without the white space around it, a blank one not at all.
pub proof fn law_blank_text_is_none(t: Seq<char>)
    ensures
        text::trim(t).len() > 0 ==> nonblank(Some(t)) == Some(text::trim(t)),
        text::trim(t).len() == 0 ==> nonblank(Some(t)) is None,
        nonblank(None) is None,
{
}

/// The current account of the command-line client is the text under `activeAccountId` in its
/// state, unless it is blank.
pub proof fn law_current_account_is_read(root: Map<Seq<char>, JsonView>, value: JsonView)
    ensures
        root.contains_pair("activeAccountId"@, value) ==> active_account(JsonView::Object(root))
            == match value {
            JsonView::Text(t) => if text::trim(t).len() > 0 {
                Some(text::trim(t))
            } else {
                None
            },
            _ => None,
        },
        !root.contains_key("activeAccountId"@) ==> active_account(JsonView::Object(root)) is None,
{
}

/// The user that is logged in is the text under `uid` in `account`, even a blank one, which names
/// nobody; only where there is no such text does the `uid` of the whole count.
pub proof fn law_nested_user_outweighs_the_outer(
    root: Map<Seq<char>, JsonView>,
    account: Map<Seq<char>, JsonView>,
    nested: Seq<char>,
    outer: Seq<char>,
)
    ensures
        root.contains_pair("account"@, JsonView::Object(account)) && account.contains_pair(
            "uid"@,
            JsonView::Text(nested),
        ) ==> login_uid(JsonView::Object(root)) == if text::trim(nested).len() > 0 {
            Some(text::trim(nested))
        } else {
            None
        },
        !root.contains_key("account"@) && root.contains_pair("uid"@, JsonView::Text(outer))
            ==> login_uid(JsonView::Object(root)) == if text::trim(outer).len() > 0 {
            Some(text::trim(outer))
        } else {
            None
        },
        root.contains_pair("account"@, JsonView::Object(account)) && !account.contains_key("uid"@)
            && root.contains_pair("uid"@, JsonView::Text(outer)) ==> login_uid(
            JsonView::Object(root),
        ) == if text::trim(outer).len() > 0 {
            Some(text::trim(outer))
        } else {
            None
        },
        !root.contains_key("account"@) && !root.contains_key("uid"@) ==> login_uid(
            JsonView::Object(root),
        ) is None,
{
}

/// The entry of the registry says that a process with the session started at `at`.
pub open spec fn says_started(root: JsonView, session: Seq<char>, at: i64) -> bool {
    &&& json::field(root, "sessionId"@) == Some(JsonView::Text(session))
    &&& if at < 0 {
        json::field(root, "startedAt"@) == Some(JsonView::Negative(at))
    } else {
        json::field(root, "startedAt"@) == Some(JsonView::Unsigned(at as u64))
    }
}

/// A session's key was taken when the last of its processes started that the registry knows to
/// have started by now: no process of the session started later by now, and one did start then.
pub proof fn law_key_is_taken_by_the_last_process(
    roots: Seq<JsonView>,
    session: Seq<char>,
    now: i64,
    k: int,
    at: i64,
)
    requires
        forall|j: int|
            0 <= j < roots.len() ==> !(json::field(#[trigger] roots[j], "startedAt"@) matches Some(
                JsonView::Negative(n),
            ) && n >= 0),
    ensures
        0 <= k < roots.len() && says_started(roots[k], session, at) && at <= now ==> {
            &&& last_started(roots, session, now) is Some
            &&& at <= last_started(roots, session, now)->0
        },
        last_started(roots, session, now) matches Some(t) ==> t <= now && exists|j: int|
            0 <= j < roots.len() && says_started(#[trigger] roots[j], session, t),
    decreases roots.len(),
{
    if roots.len() > 0 {
        let front = roots.drop_last();
        let n = roots.len() - 1;
        assert forall|j: int| 0 <= j < front.len() implies #[trigger] front[j] == roots[j] by {}
        law_key_is_taken_by_the_last_process(front, session, now, k, at);
        assert(roots[n] == roots.last());
        let before = last_started(front, session, now);
        let own = started(roots[n], session, now);
        if own is Some {
            assert(says_started(roots[n], session, own->0));
        }
        if last_started(roots, session, now) is Some {
            let t = last_started(roots, session, now)->0;
            if own == Some(t) {
                assert(says_started(roots[n], session, t));
            } else {
                let j = choose|j: int|
                    0 <= j < front.len() && says_started(#[trigger] front[j], session, t);
                assert(says_started(roots[j], session, t));
            }
        }
    }
}

/// Without a session, or with a blank one, no process is looked for; white space around it does
/// not matter.
pub proof fn law_registry_is_asked_for_the_session(
    roots: Seq<JsonView>,
    session: Seq<char>,
    now: i64,
)
    ensures
        snapshot_time(roots, None, now) is None,
        text::trim(session).len() == 0 ==> snapshot_time(roots, Some(session), now) is None,
        text::trim(session).len() > 0 ==> snapshot_time(roots, Some(session), now) == last_started(
            roots,
            text::trim(session),
            now,
        ),
{
}

/// Every text that is JSON is read, each by itself and in its place; the others are passed over.
pub proof fn law_every_readable_text_is_read(
    a: Seq<Seq<char>>,
    b: Seq<Seq<char>>,
    t: Seq<char>,
)
    ensures
        readable_roots(a + b) == readable_roots(a) + readable_roots(b),
        readable_roots(seq![t]) == match json::parsed(t) {
            Some(root) => seq![root],
            None => seq![],
        },
    decreases b.len(),
{
    assert(seq![t].drop_last() =~= Seq::<Seq<char>>::empty());
    reveal_with_fuel(readable_roots, 2);
    match json::parsed(t) {
        Some(root) => {
            assert(Seq::<JsonView>::empty().push(root) =~= seq![root]);
        },
        None => {},
    }
    if b.len() == 0 {
        assert(a + b =~= a);
        assert(readable_roots(a) + readable_roots(b) =~= readable_roots(a));
    } else {
        assert((a + b).drop_last() =~= a + b.drop_last());
        law_every_readable_text_is_read(a, b.drop_last(), t);
        match json::parsed(b.last()) {
            Some(root) => {
                assert(readable_roots(a) + readable_roots(b) =~= (readable_roots(a)
                    + readable_roots(b.drop_last())).push(root));
            },
            None => {},
        }
    }
}

/// A transcript gives the time of its session as an integer under `timestamp`.
pub proof fn law_session_is_as_old_as_its_transcript(root: Map<Seq<char>, JsonView>, at: i64)
    ensures
        root.contains_pair("timestamp"@, JsonView::Unsigned(at as u64)) && at >= 0 ==> creation_time(
            JsonView::Object(root),
        ) == Some(at),
        !root.contains_key("timestamp"@) ==> creation_time(JsonView::Object(root)) is None,
{
}

/// A process that started since the client's state was last written holds the key of the current
/// account; one that started before, or with no time of writing known, that of the account that
/// the history has in force at its start. Neither where the account is not known any more, or no
/// account is current.
pub proof fn law_key_belongs_to_the_account_in_force(
    started: i64,
    current: Seq<char>,
    state_written: Option<i64>,
    history: Seq<RecordView>,
    accounts: Seq<AccountView>,
)
    ensures
        ({
            let id = if state_written is Some && state_written->0 <= started {
                Some(current)
            } else {
                cli_switch_history::account_in_force(history, started)
            };
            let known = id is Some && exists|i: int|
                0 <= i < accounts.len() && (#[trigger] accounts[i]).id == id;
            &&& known ==> holder(started, Some(current), state_written, history, accounts) == id
            &&& !known ==> holder(started, Some(current), state_written, history, accounts) is None
            &&& holder(started, None, state_written, history, accounts) is None
        }),
{
    let id = if state_written is Some && state_written->0 <= started {
        Some(current)
    } else {
        cli_switch_history::account_in_force(history, started)
    };
    if id is Some && exists|i: int|
        0 <= i < accounts.len() && (#[trigger] accounts[i]).id == id {
        assert(has_account(accounts, id->0));
    }
}

/// The start of a session's process is the one that the registry gives, and only without one the
/// time at which the session was created. A start that is not known, or that lies in the future,
/// gives no account.
pub proof fn law_registry_outweighs_the_transcript(
    at: i64,
    created: Option<i64>,
    current: Option<Seq<char>>,
    state_written: Option<i64>,
    history: Seq<RecordView>,
    accounts: Seq<AccountView>,
    now: i64,
)
    ensures
        at <= now ==> key_holder(
            Some(at),
            created,
            current,
            state_written,
            history,
            accounts,
            now,
        ) == holder(at, current, state_written, history, accounts),
        at <= now ==> key_holder(None, Some(at), current, state_written, history, accounts, now)
            == holder(at, current, state_written, history, accounts),
        at > now ==> key_holder(
            Some(at),
            created,
            current,
            state_written,
            history,
            accounts,
            now,
        ) is None,
        at > now ==> key_holder(None, Some(at), current, state_written, history, accounts, now)
            is None,
        key_holder(None, None, current, state_written, history, accounts, now) is None,
{
}

/// An event of the desktop client belongs to the account of its login where that is known;
/// otherwise to that of its session.
pub proof fn law_login_outweighs_the_session(
    uid: Option<Seq<char>>,
    accounts: Seq<AccountView>,
    session: Seq<char>,
    by_session: Option<Seq<char>>,
    id: Seq<char>,
)
    ensures
        uid is None ==> logged_in(uid, accounts) is None,
        uid is Some ==> logged_in(uid, accounts) == id_of_uid(accounts, uid->0),
        desktop_account(Some(id), Some(session), by_session) == Some(id),
        desktop_account(Some(id), None, by_session) == Some(id),
        desktop_account(None, Some(session), by_session) == by_session,
        desktop_account(None, None, by_session) is None,
{
}

/// A report is added to the first entry with the same account, the same model and the same reset:
/// its count is added, and the earlier time stays. Nothing else of the entries changes.
pub proof fn law_report_joins_its_entry(
    entries: Seq<ResolvedView>,
    entry: ResolvedView,
    k: int,
)
    requires
        0 <= k < entries.len(),
        entries[k].account_id == entry.account_id,
        entries[k].model == entry.model,
        entries[k].reset_at == entry.reset_at,
        forall|j: int|
            0 <= j < k ==> !((#[trigger] entries[j]).account_id == entry.account_id
                && entries[j].model == entry.model && entries[j].reset_at == entry.reset_at),
    ensures
        ({
            let all = merged_entry(entries, entry);
            &&& all.len() == entries.len()
            &&& forall|j: int|
                0 <= j < entries.len() && j != k ==> #[trigger] all[j] == entries[j]
            &&& all[k].account_id == entry.account_id
            &&& all[k].model == entry.model
            &&& all[k].reset_at == entry.reset_at
            &&& all[k].hit_count == entries[k].hit_count + entry.hit_count
            &&& all[k].first_seen_at <= entries[k].first_seen_at
            &&& all[k].first_seen_at <= entry.first_seen_at
            &&& all[k].first_seen_at == entries[k].first_seen_at || all[k].first_seen_at
                == entry.first_seen_at
        }),
{
    lemma_entry_from(entries, entry, 0);
}

/// A report of a refusal that no entry is of makes a new entry, behind the others.
pub proof fn law_new_refusal_makes_an_entry(entries: Seq<ResolvedView>, entry: ResolvedView)
    requires
        forall|j: int|
            0 <= j < entries.len() ==> !((#[trigger] entries[j]).account_id == entry.account_id
                && entries[j].model == entry.model && entries[j].reset_at == entry.reset_at),
    ensures
        merged_entry(entries, entry) == entries.push(entry),
{
    lemma_entry_from(entries, entry, 0);
}

/// Reports are taken in one after the other.
pub proof fn law_reports_are_taken_in_one_by_one(
    entries: Seq<ResolvedView>,
    a: Seq<ResolvedView>,
    b: Seq<ResolvedView>,
    entry: ResolvedView,
)
    ensures
        all_merged(entries, a + b) == all_merged(all_merged(entries, a), b),
        all_merged(entries, seq![entry]) == merged_entry(entries, entry),
        all_merged(entries, seq![]) == entries,
    decreases b.len(),
{
    assert(seq![entry].drop_last() =~= Seq::<ResolvedView>::empty());
    reveal_with_fuel(all_merged, 2);
    if b.len() == 0 {
        assert(a + b =~= a);
    } else {
        assert((a + b).drop_last() =~= a + b.drop_last());
        law_reports_are_taken_in_one_by_one(entries, a, b.drop_last(), entry);
    }
}

/// Every report with an account makes an entry of its own: for that account, with the report's
/// model and reset, first seen now, and counted once. One without an account makes none.
pub proof fn law_each_attributed_report_makes_an_entry(
    a: Seq<Attributed>,
    b: Seq<Attributed>,
    report: Attributed,
    now: i64,
)
    ensures
        new_entries(a + b, now) == new_entries(a, now) + new_entries(b, now),
        report.account_id is None ==> new_entries(seq![report], now).len() == 0,
        report.account_id matches Some(id) ==> {
            let made = new_entries(seq![report], now);
            &&& made.len() == 1
            &&& made[0].account_id == id@
            &&& match report.event.model {
                Some(m) => made[0].model == Some(m@),
                None => made[0].model is None,
            }
            &&& made[0].reset_at == report.event.reset_at
            &&& made[0].first_seen_at == now
            &&& made[0].hit_count == 1
        },
    decreases b.len(),
{
    assert(seq![report].drop_last() =~= Seq::<Attributed>::empty());
    reveal_with_fuel(new_entries, 2);
    if b.len() == 0 {
        assert(a + b =~= a);
        assert(new_entries(a, now) + new_entries(b, now) =~= new_entries(a, now));
    } else {
        assert((a + b).drop_last() =~= a + b.drop_last());
        law_each_attributed_report_makes_an_entry(a, b.drop_last(), report, now);
        if b.last().account_id is Some {
            let x = new_entries(b, now).last();
            assert(new_entries(a, now) + new_entries(b, now) =~= (new_entries(a, now)
                + new_entries(b.drop_last(), now)).push(x));
        }
    }
}

/// The entries that still hold stay in their order, each as it is.
pub proof fn law_live_entries_stay_in_order(
    a: Seq<ResolvedView>,
    b: Seq<ResolvedView>,
    x: ResolvedView,
    now: i64,
)
    ensures
        live(a + b, now) == live(a, now) + live(b, now),
        live(seq![x], now) == if x.reset_at > now {
            seq![x]
        } else {
            seq![]
        },
    decreases b.len(),
{
    assert(seq![x].drop_last() =~= Seq::<ResolvedView>::empty());
    reveal_with_fuel(live, 2);
    assert(Seq::<ResolvedView>::empty().push(x) =~= seq![x]);
    if b.len() == 0 {
        assert(a + b =~= a);
        assert(live(a, now) + live(b, now) =~= live(a, now));
    } else {
        assert((a + b).drop_last() =~= a + b.drop_last());
        law_live_entries_stay_in_order(a, b.drop_last(), x, now);
        if b.last().reset_at > now {
            assert(live(a, now) + live(b, now) =~= (live(a, now) + live(b.drop_last(), now)).push(
                b.last(),
            ));
        }
    }
}

/// A file is read on from where it was read to, unless it is shorter than that: then it is a new
/// one, and read from its start.
pub proof fn law_shorter_file_is_read_from_its_start(len: int, offset: u64)
    ensures
        len < offset ==> resume_at(len, offset) == 0,
        len >= offset ==> resume_at(len, offset) == offset,
{
}

/// A line that ends is read as its text without white space around it, unless it is blank; what
/// does not end is not read.
pub proof fn law_line_is_read_once_it_ends(line: Seq<u8>)
    requires
        forall|i: int| 0 <= i < line.len() ==> #[trigger] line[i] != 10,
    ensures
        read_lines(line).len() == 0,
        read_lines(line.push(10)) == if text::trim(text::lossy_text(line)).len() > 0 {
            seq![text::trim(text::lossy_text(line))]
        } else {
            seq![]
        },
{
    lemma_split_of_line(line);
    let whole = line.push(10);
    assert(whole.drop_last() =~= line);
    assert(split(whole).0 =~= seq![line]);
    assert(lossy_lines(split(line).0) =~= Seq::<Seq<char>>::empty());
    let lines = lossy_lines(split(whole).0);
    assert(lines =~= seq![text::lossy_text(line)]);
    assert(lines.drop_last() =~= Seq::<Seq<char>>::empty());
    reveal_with_fuel(text::filled, 2);
    assert(Seq::<Seq<char>>::empty().push(text::trim(text::lossy_text(line))) =~= seq![
        text::trim(text::lossy_text(line)),
    ]);
}

proof fn lemma_split_of_line(line: Seq<u8>)
    requires
        forall|i: int| 0 <= i < line.len() ==> #[trigger] line[i] != 10,
    ensures
        split(line).0 =~= Seq::<Seq<u8>>::empty(),
        split(line).1 =~= line,
    decreases line.len(),
{
    if line.len() > 0 {
        lemma_split_of_line(line.drop_last());
        assert(line[line.len() - 1] != 10);
        assert(line.drop_last().push(line.last()) =~= line);
    }
}

/// An event of the command-line client is put down by that client's files alone, one of the
/// desktop client, of either edition, by its login and its session alone.
pub proof fn law_each_client_speaks_for_itself(
    session_id: Option<Seq<char>>,
    one: Evidence,
    other: Evidence,
    variant: WbVariant,
    accounts: Seq<AccountView>,
    now: i64,
)
    ensures
        one.cli == other.cli ==> attributed(session_id, HookSource::Cli, one, accounts, now)
            == attributed(session_id, HookSource::Cli, other, accounts, now),
        one.login == other.login && one.by_session == other.by_session ==> attributed(
            session_id,
            HookSource::WorkBuddy(variant),
            one,
            accounts,
            now,
        ) == attributed(session_id, HookSource::WorkBuddy(WbVariant::Cn), other, accounts, now),
{
}

/// An event of the desktop client belongs to the first account with the user that is logged in,
/// where that account has an id; without a login, to the account of its session.
pub proof fn law_desktop_event_goes_to_the_login(
    session_id: Option<Seq<char>>,
    variant: WbVariant,
    evidence: Evidence,
    accounts: Seq<AccountView>,
    now: i64,
    root: JsonView,
    k: int,
)
    ensures
        evidence.login is Some && json::parsed(evidence.login->0@) == Some(root) && login_uid(root)
            is Some && 0 <= k < accounts.len() && accounts[k].uid == login_uid(root)
            && accounts[k].id is Some && (forall|j: int|
            0 <= j < k ==> (#[trigger] accounts[j]).uid != login_uid(root)) ==> attributed(
            session_id,
            HookSource::WorkBuddy(variant),
            evidence,
            accounts,
            now,
        ) == accounts[k].id,
        evidence.login is None && session_id is Some ==> attributed(
            session_id,
            HookSource::WorkBuddy(variant),
            evidence,
            accounts,
            now,
        ) == text::opt_text(evidence.by_session),
        evidence.login is None && session_id is None ==> attributed(
            session_id,
            HookSource::WorkBuddy(variant),
            evidence,
            accounts,
            now,
        ) is None,
{
    if login_uid(root) is Some {
        law_user_is_looked_up_in_order(accounts, login_uid(root)->0, k);
    }
}

/// An event of the command-line client belongs to the account that holds its process's key: the
/// process started when the registry says, else when the transcript was begun.
pub proof fn law_cli_event_goes_to_the_key_holder(
    session_id: Option<Seq<char>>,
    evidence: Evidence,
    accounts: Seq<AccountView>,
    now: i64,
    state: JsonView,
    head: JsonView,
    at: i64,
)
    requires
        evidence.cli.state is Some,
        json::parsed(evidence.cli.state->0@) == Some(state),
    ensures
        ({
            let held = holder(
                at,
                active_account(state),
                evidence.cli.state_written,
                cli_switch_history::record_views(evidence.cli.history@),
                accounts,
            );
            let known = snapshot_time(
                readable_roots(text::texts(evidence.cli.registry@)),
                session_id,
                now,
            );
            let found = attributed(session_id, HookSource::Cli, evidence, accounts, now);
            &&& known == Some(at) && at <= now ==> found == held
            &&& known is None && evidence.cli.transcript_head is Some && json::parsed(
                evidence.cli.transcript_head->0@,
            ) == Some(head) && creation_time(head) == Some(at) ==> found == if at <= now {
                held
            } else {
                None
            }
            &&& known is None && evidence.cli.transcript_head is None ==> found is None
        }),
{
}

/// The reset of a reported refusal is the one that its own message names.
pub proof fn law_reset_is_that_of_the_message(payload: HookPayload)
    ensures
        payload.last_assistant_message is None ==> reset_told(payload) is None,
        payload.last_assistant_message matches Some(message) ==> reset_told(payload)
            == log_line::reset_value(message@),
        event_told(payload, reset_told(payload)) matches Some(e) ==> log_line::reset_value(
            payload.last_assistant_message->0@,
        ) == Some(e.reset_at),
{
}

} // verus!
