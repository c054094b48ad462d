use std::collections::{BTreeMap, HashSet};

use rusqlite::types::Value;
use rusqlite::Connection;
use wb_switch_core::copy_request::{CopyRequest, RequestEvent, RequestStage};
use wb_switch_core::json::Json;
use wb_switch_core::path::{FilePath, PathStyle};
use wb_switch_core::session::{
    backup_suffixes, copied_body, copied_row, current_user_uid, current_user_uid_at,
    insert_statement, is_claw_workspace, list_sessions_for_user, list_sessions_query,
    mapping_channel, mapping_row_matches, mapping_unavailable, row_copy_outcome,
    session_copy_supported_at, session_display_title, verify_backup, verify_session_row,
    workbuddy_db_path, CellPlan, DataRootProbe, DbCopyOutcome, Logins, MappingProbe, RowProbe,
    SessionPaths, SessionRow, SESSION_COPY_APP_RUNNING, SESSION_COPY_UNSUPPORTED,
};
use wb_switch_core::session_copy::{
    member_is_valid, CopyEvent, CopyIds, CopyInput, CopyOutcome, CopyStage, SessionCopy,
};
use wb_switch_core::session_files::{content_of, prune_operations, store_state, StoreFile};
use wb_switch_core::session_link::{
    advance_operation, commit_links, committed_links_present, find_pair_base, pending_operations, BaselineRecord,
    ContentState, LinkGroup, LinkMember, LinkStore, MemberState, NormalizedContent, OpPhase,
    Operation, OperationMember, RecoveryIssue, RecoveryReport, StoreState, KEEP_COMPLETED_OPERATIONS,
    LOCK_BUSY_MESSAGE_PREFIX, OPERATION_VERSION, STORE_VERSION,
};
use wb_switch_core::session_recovery::{
    recover_pending_session_operations, recover_pending_session_operations_at, RecoverOutcome,
    Recovery, RecoveryEvent, RecoveryStage, UNPARSEABLE_OPERATION_REASON,
};
use wb_switch_core::variant::WbVariant;

const NOW: i64 = 1_789_639_167_000;

/// The tool's own files, held in memory.
struct Tool {
    /// The file of the store: absent, unreadable, or what it holds.
    links: Option<Result<LinkStore, ()>>,
    links_are_writable: bool,
    baselines: BTreeMap<String, NormalizedContent>,
    operations: Vec<Operation>,
    problems: Vec<String>,
    locked: bool,
}

/// A data root of the client, its databases held in memory.
struct Data {
    workbuddy: Option<Connection>,
    edge: Option<Connection>,
    has_projects: bool,
    bodies: BTreeMap<String, String>,
    bodies_are_writable: bool,
    login: Option<String>,
}

struct Env {
    tool: Tool,
    data: Data,
}

impl Tool {
    fn new() -> Self {
        Tool {
            links: None,
            links_are_writable: true,
            baselines: BTreeMap::new(),
            operations: Vec::new(),
            problems: Vec::new(),
            locked: false,
        }
    }

    fn load(&self) -> StoreState {
        let file = match &self.links {
            None => StoreFile::Absent,
            Some(Err(())) => StoreFile::Broken,
            Some(Ok(store)) => StoreFile::Held(store.clone()),
        };
        let traces = !self.baselines.is_empty()
            || self.operations.iter().any(|o| o.phase.is_unfinished());
        store_state(file, traces)
    }

    fn save(&mut self, operation: &Operation) -> Result<(), String> {
        let id = &operation.operation_id;
        self.operations.retain(|o| &o.operation_id != id);
        self.operations.push(operation.clone());
        Ok(())
    }

    fn pending(&self, variant: WbVariant) -> Vec<Operation> {
        pending_operations(self.operations.clone(), variant)
    }

    fn commit(
        &mut self,
        operation: &Operation,
        variant: WbVariant,
        content: &NormalizedContent,
    ) -> Result<String, String> {
        let store = match self.load() {
            StoreState::Ready(store) => store,
            StoreState::Missing => panic!("the store is made before copies"),
            StoreState::Unavailable(reason) => return Err(reason),
        };
        if !self.links_are_writable {
            return Err("关联存储写入失败".to_string());
        }
        let records = self
            .baselines
            .iter()
            .map(|(name, c)| BaselineRecord {
                baseline_ref: name.clone(),
                line_digests: c.line_digests.clone(),
            })
            .collect();
        let done = commit_links(store, operation, variant, &content.line_digests, &records, NOW);
        self.baselines.insert(done.baseline_ref, content.clone());
        self.links = Some(Ok(done.store));
        Ok(operation.group_id.clone())
    }

    fn store(&self) -> LinkStore {
        match self.load() {
            StoreState::Ready(store) => store,
            other => panic!("{other:?}"),
        }
    }
}

const SESSIONS: &str = "CREATE TABLE sessions (id TEXT PRIMARY KEY, user_id TEXT NOT NULL, title TEXT, custom_title TEXT, cwd TEXT, created_at INTEGER, updated_at INTEGER, deleted_at INTEGER, is_playground INTEGER);";
const MAPPING: &str = "CREATE TABLE edge_sync_mapping (session_id TEXT, conversation_id TEXT, msg_channel TEXT, created_at INTEGER);";

fn database(schema: &str) -> Connection {
    let conn = Connection::open_in_memory().expect("a database");
    conn.execute_batch(schema).expect("its tables");
    conn
}

fn has_table(conn: &Connection, name: &str) -> bool {
    conn.query_row(
        "SELECT EXISTS(SELECT 1 FROM sqlite_master WHERE type='table' AND name=?1)",
        [name],
        |r| r.get::<_, i64>(0),
    )
    .unwrap_or(0)
        == 1
}

impl Data {
    fn new() -> Self {
        Data {
            workbuddy: None,
            edge: None,
            has_projects: true,
            bodies: BTreeMap::new(),
            bodies_are_writable: true,
            login: None,
        }
    }

    fn supported(&self) -> bool {
        session_copy_supported_at(&DataRootProbe {
            projects_is_dir: self.has_projects,
            db_is_file: self.workbuddy.is_some(),
            db_opens: self.workbuddy.is_some(),
            has_sessions_table: self
                .workbuddy
                .as_ref()
                .is_some_and(|conn| has_table(conn, "sessions")),
        })
    }

    fn content(&self, id: &str) -> ContentState {
        content_of(&self.bodies.get(id).cloned(), id)
    }

    fn write_copy(&mut self, id: &str, new_id: &str) -> Result<(), String> {
        if !self.bodies_are_writable {
            return Err("Permission denied".to_string());
        }
        let body = copied_body(&self.bodies[id], id, new_id);
        self.bodies.insert(new_id.to_string(), body);
        Ok(())
    }

    fn owner(&self, id: &str) -> Option<String> {
        self.workbuddy
            .as_ref()?
            .query_row(
                "SELECT user_id FROM sessions WHERE id = ?1 AND deleted_at IS NULL",
                [id],
                |row| row.get::<_, Option<String>>(0),
            )
            .ok()
            .flatten()
    }

    fn insert_copy(
        &self,
        new_id: &str,
        id: &str,
        source_uid: &str,
        target_uid: &str,
    ) -> Result<DbCopyOutcome, String> {
        let mut columns: Vec<String> = Vec::new();
        let mut values: Vec<Value> = Vec::new();
        let mut has_sessions_table = false;
        let mut has_source_row = false;
        if let Some(conn) = &self.workbuddy {
            has_sessions_table = has_table(conn, "sessions");
            if has_sessions_table {
                let mut statement = conn
                    .prepare("SELECT * FROM sessions WHERE id = ?1 AND user_id = ?2")
                    .expect("a statement");
                columns = statement.column_names().iter().map(|n| n.to_string()).collect();
                let mut rows = statement.query([id, source_uid]).expect("rows");
                if let Some(row) = rows.next().expect("a row or none") {
                    has_source_row = true;
                    for i in 0..columns.len() {
                        values.push(row.get::<_, Value>(i).unwrap_or(Value::Null));
                    }
                }
            }
        }
        let outcome = row_copy_outcome(&RowProbe {
            db_is_file: self.workbuddy.is_some(),
            db_opens: self.workbuddy.is_some(),
            has_sessions_table,
            has_source_row,
        })?;
        if outcome != DbCopyOutcome::Inserted {
            return Ok(outcome);
        }
        let texts = values
            .iter()
            .map(|v| match v {
                Value::Text(t) => Some(t.clone()),
                _ => None,
            })
            .collect();
        let cells = copied_row(&columns, &texts, new_id, target_uid, NOW)?;
        let copies: Vec<Value> = cells
            .into_iter()
            .zip(values)
            .map(|(cell, value)| match cell {
                CellPlan::Keep => value,
                CellPlan::Text(t) => Value::Text(t),
                CellPlan::Integer(n) => Value::Integer(n),
                CellPlan::Null => Value::Null,
            })
            .collect();
        self.workbuddy
            .as_ref()
            .expect("the database")
            .execute(&insert_statement(&columns), rusqlite::params_from_iter(copies))
            .map_err(|e| format!("会话行写入失败：{e}"))?;
        Ok(DbCopyOutcome::Inserted)
    }

    fn register(&self, variant: WbVariant, new_id: &str, target_uid: &str) -> Result<(), String> {
        let probe = MappingProbe {
            db_is_file: self.edge.is_some(),
            db_opens: self.edge.is_some(),
            has_table: self
                .edge
                .as_ref()
                .is_some_and(|conn| has_table(conn, "edge_sync_mapping")),
        };
        if let Some(reason) = mapping_unavailable(&probe, variant) {
            return Err(reason);
        }
        self.edge
            .as_ref()
            .expect("the database")
            .execute(
                "INSERT INTO edge_sync_mapping (session_id, conversation_id, msg_channel, created_at) VALUES (?1, ?1, ?2, 1)",
                [new_id, mapping_channel(target_uid).as_str()],
            )
            .expect("a row");
        Ok(())
    }

    fn channel(&self, id: &str) -> Option<String> {
        self.edge
            .as_ref()?
            .query_row(
                "SELECT msg_channel FROM edge_sync_mapping WHERE session_id = ?1",
                [id],
                |row| row.get::<_, String>(0),
            )
            .ok()
    }
}

fn run_copy(
    tool: &mut Tool,
    data: &mut Data,
    input: CopyInput,
    pending: &Vec<Operation>,
) -> Result<CopyOutcome, String> {
    let mut copy = SessionCopy::new(input, pending);
    loop {
        let variant = copy.input.variant;
        let id = copy.input.session_id.clone();
        let new_id = copy
            .operation
            .as_ref()
            .map(|o| o.target.session_id.clone())
            .unwrap_or_default();
        let event = match copy.stage {
            CopyStage::Finished => return copy.result.expect("a result"),
            CopyStage::ReadSource => CopyEvent::Content(data.content(&id)),
            CopyStage::FindOwner => CopyEvent::Owner(data.owner(&id)),
            CopyStage::LoadStore => CopyEvent::Store(tool.load()),
            CopyStage::CheckMember => {
                let member = copy.candidate.as_ref().expect("a candidate");
                CopyEvent::Flag(member_is_valid(
                    &data.content(&member.session_id),
                    &data.owner(&member.session_id),
                    &member.uid,
                ))
            }
            CopyStage::CreateStore => {
                tool.links = Some(Ok(LinkStore {
                    version: STORE_VERSION,
                    revision: 1,
                    groups: Vec::new(),
                }));
                CopyEvent::Done(Ok(()))
            }
            CopyStage::Backup => CopyEvent::Named(match data.workbuddy {
                Some(_) => Ok("/backups/workbuddy.db".to_string()),
                None => Err("会话数据库不存在，未复制".to_string()),
            }),
            CopyStage::SavePrepared
            | CopyStage::SaveBody
            | CopyStage::SaveRow
            | CopyStage::SaveMapping
            | CopyStage::SaveLinks
            | CopyStage::SaveCompleted
            | CopyStage::SaveFailure => {
                CopyEvent::Done(tool.save(copy.operation.as_ref().expect("a record")))
            }
            CopyStage::CheckDest => CopyEvent::Flag(data.bodies.contains_key(&new_id)),
            CopyStage::WriteBody => CopyEvent::Done(data.write_copy(&id, &new_id)),
            CopyStage::ReadBack => CopyEvent::Content(data.content(&new_id)),
            CopyStage::InsertRow => CopyEvent::Inserted(data.insert_copy(
                &new_id,
                &id,
                &copy.input.source_uid,
                &copy.input.target_uid,
            )),
            CopyStage::VerifyRow => CopyEvent::Owner(data.owner(&new_id)),
            CopyStage::RegisterMapping => {
                CopyEvent::Done(data.register(variant, &new_id, &copy.input.target_uid))
            }
            CopyStage::CommitLinks => {
                let operation = copy.operation.as_ref().expect("a record");
                let content = copy.content.as_ref().expect("the content");
                CopyEvent::Named(tool.commit(operation, variant, content))
            }
            CopyStage::Prune => {
                let old = prune_operations(&tool.operations, variant, KEEP_COMPLETED_OPERATIONS);
                tool.operations.retain(|o| !old.contains(&o.operation_id));
                CopyEvent::Done(Ok(()))
            }
        };
        copy.step(event, NOW);
    }
}

fn run_recovery(tool: &mut Tool, data: &mut Data, operation: Operation) -> RecoverOutcome {
    let mut recovery = Recovery::new(operation);
    loop {
        let operation = recovery.operation.clone();
        let variant = operation.variant;
        let (source, target) = (&operation.source, &operation.target);
        let event = match recovery.stage {
            RecoveryStage::Finished => return recovery.outcome.expect("an outcome"),
            RecoveryStage::CheckBody | RecoveryStage::ReadBack => {
                RecoveryEvent::Content(data.content(&target.session_id))
            }
            RecoveryStage::ReadSource => RecoveryEvent::Content(data.content(&source.session_id)),
            RecoveryStage::CheckDest => {
                RecoveryEvent::Flag(data.bodies.contains_key(&target.session_id))
            }
            RecoveryStage::WriteBody => {
                RecoveryEvent::Done(data.write_copy(&source.session_id, &target.session_id))
            }
            RecoveryStage::FindOwner | RecoveryStage::VerifyRow => {
                RecoveryEvent::Owner(data.owner(&target.session_id))
            }
            RecoveryStage::InsertRow => RecoveryEvent::Inserted(data.insert_copy(
                &target.session_id,
                &source.session_id,
                &source.uid,
                &target.uid,
            )),
            RecoveryStage::RegisterMapping => {
                RecoveryEvent::Done(data.register(variant, &target.session_id, &target.uid))
            }
            RecoveryStage::CheckMapping => RecoveryEvent::Flag(mapping_row_matches(
                &data.channel(&target.session_id),
                &target.uid,
            )),
            RecoveryStage::CommitLinks => {
                let content = recovery.content.as_ref().expect("the content");
                RecoveryEvent::Committed(tool.commit(&operation, variant, content))
            }
            RecoveryStage::CheckLinks => {
                RecoveryEvent::Done(committed_links_present(&tool.load(), &operation))
            }
            RecoveryStage::SaveBody
            | RecoveryStage::SaveRow
            | RecoveryStage::SaveMapping
            | RecoveryStage::SaveLinks
            | RecoveryStage::SaveCompleted
            | RecoveryStage::SaveOutcome => RecoveryEvent::Done(tool.save(&operation)),
        };
        recovery.step(event, NOW);
    }
}

fn recover(tool: &mut Tool, data: &mut Data, variant: WbVariant) -> RecoveryReport {
    let mut outcomes = Vec::new();
    for operation in tool.pending(variant) {
        outcomes.push(run_recovery(tool, data, operation));
    }
    recover_pending_session_operations_at(&tool.problems, outcomes)
}

fn request(
    tool: &mut Tool,
    data: &mut Data,
    variant: WbVariant,
    target_uid: Option<&str>,
    ids: &[&str],
    running: &mut dyn FnMut(&Tool) -> bool,
) -> Result<Json, String> {
    let ids: Vec<String> = ids.iter().map(|id| id.to_string()).collect();
    let mut request = CopyRequest::new(variant, target_uid.map(str::to_string), ids);
    let mut pending = Vec::new();
    let mut holds = false;
    loop {
        let event = match request.stage {
            RequestStage::Finished => {
                if holds {
                    tool.locked = false;
                }
                return request.report.expect("a report");
            }
            RequestStage::CheckRunning | RequestStage::Recheck => {
                RequestEvent::Flag(running(tool))
            }
            RequestStage::CheckSupported => RequestEvent::Flag(data.supported()),
            RequestStage::ReadLogin => RequestEvent::Login(current_user_uid_at(&data.login)),
            RequestStage::AcquireLock => {
                if tool.locked {
                    RequestEvent::Done(Err(format!("{LOCK_BUSY_MESSAGE_PREFIX}，请稍后重试")))
                } else {
                    tool.locked = true;
                    holds = true;
                    RequestEvent::Done(Ok(()))
                }
            }
            RequestStage::Recover => {
                let report = recover(tool, data, variant);
                pending = tool.pending(variant);
                RequestEvent::Recovered(report)
            }
            RequestStage::CopySession => {
                let input = CopyInput {
                    variant,
                    session_id: request.session_ids[request.results.len()].clone(),
                    source_uid: request.source_uid.clone().expect("a login"),
                    source_account_id: None,
                    target_uid: target_uid.expect("a user").trim().to_string(),
                    target_account_id: target_uid.map(|uid| format!("acc-{uid}")),
                };
                RequestEvent::Copied(run_copy(tool, data, input, &pending))
            }
            RequestStage::CountPending => RequestEvent::Flag(!tool.pending(variant).is_empty()),
        };
        request.step(event);
    }
}

impl Env {
    fn set_login(&mut self, uid: &str) {
        self.data.login = Some(format!("{{\"account\":{{\"uid\":\"{uid}\"}}}}"));
    }

    fn add_session(&self, id: &str, uid: &str, title: &str) {
        self.db()
            .execute(
                "INSERT INTO sessions (id, user_id, title, custom_title, cwd, created_at, updated_at, deleted_at, is_playground)
                 VALUES (?1, ?2, ?3, NULL, '/ws/a', 1000, 2000, NULL, 0)",
                [id, uid, title],
            )
            .expect("a row");
    }

    fn add_body(&mut self, id: &str, text: &str) {
        self.data.bodies.insert(id.to_string(), text.to_string());
    }

    fn db(&self) -> &Connection {
        self.data.workbuddy.as_ref().expect("the database")
    }

    fn execute(&self, sql: &str) {
        self.db().execute_batch(sql).expect("executed");
    }

    fn rows_for(&self, uid: &str) -> Vec<String> {
        let mut statement = self
            .db()
            .prepare("SELECT id FROM sessions WHERE user_id = ?1 AND deleted_at IS NULL ORDER BY id")
            .expect("a statement");
        let rows = statement
            .query_map([uid], |row| row.get::<_, String>(0))
            .expect("rows");
        rows.flatten().collect()
    }

    fn mapping_rows(&self) -> i64 {
        self.data
            .edge
            .as_ref()
            .expect("the database")
            .query_row("SELECT COUNT(*) FROM edge_sync_mapping", [], |row| row.get(0))
            .expect("a count")
    }

    fn store(&self) -> LinkStore {
        self.tool.store()
    }

    fn pending(&self) -> Vec<Operation> {
        self.tool.pending(WbVariant::Cn)
    }

    fn recover(&mut self) -> RecoveryReport {
        recover(&mut self.tool, &mut self.data, WbVariant::Cn)
    }

    /// Sets the record of the copy back to the phase.
    fn set_phase(&mut self, new_id: &str, phase: OpPhase) -> String {
        let operation = self
            .tool
            .operations
            .iter_mut()
            .find(|o| o.target.session_id == new_id)
            .expect("the record of the copy");
        operation.phase = phase;
        operation.operation_id.clone()
    }
}

fn body_text(id: &str) -> String {
    format!(
        "{{\"sessionId\":\"{id}\",\"text\":\"你好\",\"type\":\"user\"}}\n{{\"sessionId\":\"{id}\",\"text\":\"hi\",\"type\":\"assistant\"}}\n"
    )
}

/// The user uid-a is logged in and has one session, sess-1, with a body.
fn ready_env() -> Env {
    let mut data = Data::new();
    data.workbuddy = Some(database(SESSIONS));
    data.edge = Some(database(MAPPING));
    let mut env = Env {
        tool: Tool::new(),
        data,
    };
    env.set_login("uid-a");
    env.add_session("sess-1", "uid-a", "标题一");
    env.add_body("sess-1", &body_text("sess-1"));
    env
}

fn try_copy(env: &mut Env, target_uid: &str, ids: &[&str]) -> Result<Json, String> {
    request(
        &mut env.tool,
        &mut env.data,
        WbVariant::Cn,
        Some(target_uid),
        ids,
        &mut |_| false,
    )
}

fn copy(env: &mut Env, target_uid: &str, ids: &[&str]) -> Json {
    try_copy(env, target_uid, ids).expect("a report")
}

fn list<'a>(json: &'a Json, key: &str) -> &'a Vec<Json> {
    match json.get(key) {
        Some(Json::Array(items)) => items,
        _ => panic!("no list {key}"),
    }
}

fn text(json: &Json, key: &str) -> String {
    json.get_text(key).expect("a text")
}

fn first_copy_id(report: &Json) -> String {
    text(&list(report, "copied")[0], "newId")
}

fn first_link_id(report: &Json) -> String {
    text(&list(report, "alreadyLinked")[0], "sessionId")
}

fn first_error(report: &Json) -> String {
    text(&list(report, "errors")[0], "error")
}

fn needs_recovery(report: &Json) -> bool {
    report.get("needsRecovery") == Some(&Json::Bool(true))
}

fn operation(id: &str, source: &str, target: &str, phase: OpPhase) -> Operation {
    Operation {
        version: OPERATION_VERSION,
        operation_id: id.to_string(),
        kind: "copy".to_string(),
        variant: WbVariant::Cn,
        group_id: "g-gone".to_string(),
        source: OperationMember {
            account_id: None,
            uid: "uid-a".to_string(),
            session_id: source.to_string(),
        },
        target: OperationMember {
            account_id: None,
            uid: "uid-b".to_string(),
            session_id: target.to_string(),
        },
        expected_content_digest: "d".to_string(),
        expected_record_count: 1,
        phase,
        backup: None,
        last_error: None,
        created_at: 1,
        updated_at: 1,
    }
}

// ---------------------------------------------------------------------------
// Paths and what a data root can take
// ---------------------------------------------------------------------------

fn paths_for(variant: WbVariant) -> SessionPaths {
    SessionPaths::for_variant(
        variant,
        &FilePath::new("/home/u", PathStyle::Unix),
        &FilePath::new("/home/u/auth.info", PathStyle::Unix),
    )
}

#[test]
fn db_paths_follow_variant_data_root() {
    let cn = paths_for(WbVariant::Cn);
    assert!(cn.workbuddy_db().text.ends_with(".workbuddy/workbuddy.db"));
    assert!(cn
        .edge_sync_db(WbVariant::Cn)
        .text
        .ends_with("edge-sync-mapping-v2.db"));

    let ai = paths_for(WbVariant::Ai);
    assert_eq!(ai.workbuddy_db(), ai.data_root.join("workbuddy.db"));
    assert_ne!(cn.workbuddy_db(), ai.workbuddy_db());
    assert!(ai
        .edge_sync_db(WbVariant::Ai)
        .text
        .ends_with("edge-sync-mapping-v4.db"));
    assert_ne!(
        cn.edge_sync_db(WbVariant::Cn),
        ai.edge_sync_db(WbVariant::Ai)
    );
    assert!(cn
        .variant_ops_lock_file(WbVariant::Cn)
        .text
        .ends_with("locks/session-ops-cn.lock"));
    assert_ne!(
        cn.variant_ops_lock_file(WbVariant::Cn),
        cn.variant_ops_lock_file(WbVariant::Ai)
    );
    assert!(cn
        .link_store_lock_file()
        .text
        .ends_with("locks/session-links.lock"));
}

#[test]
fn paths_are_joined_under_their_roots() {
    let cn = paths_for(WbVariant::Cn);
    assert_eq!(cn.store_root.text, "/home/u/.wb-switch");
    assert_eq!(cn.projects_dir().text, "/home/u/.workbuddy/projects");
    assert_eq!(cn.backup_root().text, "/home/u/.wb-switch/backups");
    assert_eq!(
        cn.session_links_file().text,
        "/home/u/.wb-switch/session_links.json"
    );
    assert_eq!(
        cn.session_links_dir().text,
        "/home/u/.wb-switch/session-links"
    );
    assert_eq!(
        cn.baselines_dir().text,
        "/home/u/.wb-switch/session-links/baselines"
    );
    assert_eq!(
        cn.operations_dir().text,
        "/home/u/.wb-switch/session-links/operations"
    );
    assert_eq!(cn.locks_dir().text, "/home/u/.wb-switch/locks");
    assert_eq!(
        cn.session_backup_root(WbVariant::Ai, "T").text,
        "/home/u/.wb-switch/backups/sessions/ai/T"
    );
    let home = FilePath::new("/home/u", PathStyle::Unix);
    assert_eq!(
        workbuddy_db_path(WbVariant::Ai, &home).text,
        "/home/u/.workbuddy-ai/workbuddy.db"
    );
}

#[test]
fn session_copy_capability_probe() {
    let probe = |projects: bool, schema: Option<&str>| {
        let mut data = Data::new();
        data.has_projects = projects;
        data.workbuddy = schema.map(database);
        data.supported()
    };
    assert!(!probe(false, None));
    assert!(!probe(true, None));
    assert!(!probe(false, Some("CREATE TABLE other (x INTEGER);")));
    assert!(!probe(true, Some("CREATE TABLE other (x INTEGER);")));
    assert!(!probe(false, Some(SESSIONS)));
    assert!(probe(true, Some(SESSIONS)));
    assert!(!session_copy_supported_at(&DataRootProbe {
        projects_is_dir: true,
        db_is_file: true,
        db_opens: false,
        has_sessions_table: true,
    }));
}

fn bare_copy(variant: WbVariant, uid: Option<&str>) -> Result<Json, String> {
    let mut tool = Tool::new();
    let mut data = Data::new();
    data.has_projects = false;
    let report = request(&mut tool, &mut data, variant, uid, &["cid-1"], &mut |_| false);
    assert!(data.bodies.is_empty());
    assert!(tool.links.is_none() && tool.operations.is_empty());
    report
}

#[test]
fn copy_sessions_for_switch_rejects_unsupported_root() {
    let err = bare_copy(WbVariant::Ai, Some("u-ai")).expect_err("not supported");
    assert!(err.contains(SESSION_COPY_UNSUPPORTED), "{err}");
    assert_eq!(err, "该档位暂不支持会话复制（档位 ai）");
}

#[test]
fn session_copy_probe_only_gates_ai() {
    let cn_err = bare_copy(WbVariant::Cn, Some("   ")).expect_err("no user");
    assert_eq!(cn_err, "目标账号缺少 uid，无法复制会话");
    assert!(!cn_err.contains(SESSION_COPY_UNSUPPORTED), "{cn_err}");

    let ai_err = bare_copy(WbVariant::Ai, Some("u-ai")).expect_err("not supported");
    assert!(ai_err.contains(SESSION_COPY_UNSUPPORTED), "{ai_err}");
}

#[test]
fn copy_sessions_for_switch_requires_target_uid() {
    let mut env = ready_env();
    let err = try_copy(&mut env, "   ", &["sess-1"]).expect_err("no user");
    assert_eq!(err, "目标账号缺少 uid，无法复制会话");
    let err = request(
        &mut env.tool,
        &mut env.data,
        WbVariant::Cn,
        None,
        &["sess-1"],
        &mut |_| false,
    )
    .expect_err("no user");
    assert_eq!(err, "目标账号缺少 uid，无法复制会话");
}

#[test]
fn copy_rejects_missing_login_and_same_account() {
    let mut env = ready_env();
    env.data.login = None;
    let err = try_copy(&mut env, "uid-b", &["sess-1"]).expect_err("no login");
    assert!(err.contains("未读取到本机登录态"), "{err}");

    env.set_login("uid-b");
    let err = try_copy(&mut env, "uid-b", &["sess-1"]).expect_err("the same account");
    assert!(err.contains("当前账号与目标账号相同"), "{err}");
    assert_eq!(env.rows_for("uid-b").len(), 0);
}

#[test]
fn the_login_gives_the_user() {
    let login = |uid: &str| Some(format!("{{\"account\":{{\"uid\":\"{uid}\"}}}}"));
    let logins = Logins {
        cn: login("uid-cn"),
        ai: login("uid-ai"),
    };
    assert_eq!(current_user_uid(WbVariant::Cn, &logins).as_deref(), Some("uid-cn"));
    assert_eq!(current_user_uid(WbVariant::Ai, &logins).as_deref(), Some("uid-ai"));
    assert_eq!(current_user_uid_at(&None), None);
    assert_eq!(current_user_uid_at(&Some("not-json".to_string())), None);
    assert_eq!(
        current_user_uid_at(&Some("{\"account\":{\"uid\":7}}".to_string())),
        None
    );
}

// ---------------------------------------------------------------------------
// Copies are not made twice
// ---------------------------------------------------------------------------

#[test]
fn copy_writes_body_row_mapping_and_link_group() {
    let mut env = ready_env();
    let report = copy(&mut env, "uid-b", &["sess-1"]);

    assert_eq!(text(&report, "sourceUid"), "uid-a");
    assert_eq!(text(&report, "targetUid"), "uid-b");
    assert_eq!(list(&report, "copied").len(), 1);
    assert_eq!(list(&report, "alreadyLinked").len(), 0);
    assert!(report.get("errors").is_none());
    assert!(report.get("needsRecovery").is_none());

    let new_id = first_copy_id(&report);
    assert_ne!(new_id, "sess-1");
    assert_eq!(text(&list(&report, "copied")[0], "id"), "sess-1");
    assert_eq!(
        text(&list(&report, "copied")[0], "backup"),
        "/backups/workbuddy.db"
    );

    let body = &env.data.bodies[&new_id];
    assert!(body.contains(&new_id));
    assert!(!body.contains("sess-1"));
    assert_eq!(env.data.bodies["sess-1"], body_text("sess-1"));

    assert_eq!(env.rows_for("uid-b"), vec![new_id.clone()]);
    assert_eq!(env.rows_for("uid-a"), vec!["sess-1".to_string()]);
    assert_eq!(env.data.channel(&new_id).as_deref(), Some("convmsg:uid-b"));

    let store = env.store();
    assert!(store.revision >= 1);
    assert_eq!(store.groups.len(), 1);
    let group = &store.groups[0];
    assert_eq!(group.variant, WbVariant::Cn);
    assert_eq!(group.members.len(), 2);
    assert!(group
        .members
        .iter()
        .all(|member| member.state == MemberState::Active));
    assert_eq!(group.pair_bases.len(), 1);
    assert!(env
        .tool
        .baselines
        .contains_key(&group.pair_bases[0].baseline_ref));
    assert!(group
        .members
        .iter()
        .any(|member| member.uid == "uid-a" && member.session_id == "sess-1"));
    assert_eq!(env.tool.operations[0].phase, OpPhase::Completed);
}

#[test]
fn copies_get_random_ids() {
    let mut env = ready_env();
    let b = first_copy_id(&copy(&mut env, "uid-b", &["sess-1"]));
    let c = first_copy_id(&copy(&mut env, "uid-c", &["sess-1"]));
    assert_ne!(b, c);
    for id in [&b, &c] {
        let uuid = uuid::Uuid::parse_str(id).expect("a uuid");
        assert_eq!(uuid.get_version_num(), 4);
        assert_eq!(&uuid.to_string(), id);
    }
}

#[test]
fn copy_retry_reuses_member_without_second_copy() {
    let mut env = ready_env();
    let first = copy(&mut env, "uid-b", &["sess-1"]);
    let new_id = first_copy_id(&first);
    let revision_before_retry = env.store().revision;

    let second = copy(&mut env, "uid-b", &["sess-1"]);
    assert_eq!(list(&second, "copied").len(), 0);
    assert_eq!(list(&second, "alreadyLinked").len(), 1);
    assert_eq!(first_link_id(&second), new_id);
    assert!(second.get("errors").is_none());

    assert_eq!(env.data.bodies.len(), 2);
    assert_eq!(env.rows_for("uid-b").len(), 1);
    assert_eq!(env.store().revision, revision_before_retry);
    assert_eq!(env.store().groups[0].members.len(), 2);
}

#[test]
fn copy_back_reuses_original_session() {
    let mut env = ready_env();
    let first = copy(&mut env, "uid-b", &["sess-1"]);
    let new_id = first_copy_id(&first);

    env.set_login("uid-b");
    let back = copy(&mut env, "uid-a", &[&new_id]);
    assert_eq!(list(&back, "copied").len(), 0);
    assert_eq!(list(&back, "alreadyLinked").len(), 1);
    assert_eq!(first_link_id(&back), "sess-1");

    assert_eq!(env.data.bodies.len(), 2);
    assert_eq!(env.rows_for("uid-a"), vec!["sess-1".to_string()]);
    assert_eq!(env.store().groups[0].members.len(), 2);
}

#[test]
fn chain_a_to_b_then_a_to_c_then_b_to_c_reuses_existing_copy() {
    let mut env = ready_env();
    let to_b = copy(&mut env, "uid-b", &["sess-1"]);
    let b_id = first_copy_id(&to_b);

    let to_c = copy(&mut env, "uid-c", &["sess-1"]);
    let c_id = first_copy_id(&to_c);
    assert_eq!(env.store().groups.len(), 1);
    assert_eq!(env.store().groups[0].members.len(), 3);

    env.set_login("uid-b");
    let b_to_c = copy(&mut env, "uid-c", &[&b_id]);
    assert_eq!(list(&b_to_c, "copied").len(), 0);
    assert_eq!(first_link_id(&b_to_c), c_id);
    assert_eq!(env.data.bodies.len(), 3);

    let store = env.store();
    let group = &store.groups[0];
    assert_eq!(group.pair_bases.len(), 3);
    let member_id = |uid: &str| {
        group
            .members
            .iter()
            .find(|member| member.uid == uid)
            .expect("a member")
            .member_id
            .clone()
    };
    let (a, b, c) = (member_id("uid-a"), member_id("uid-b"), member_id("uid-c"));
    let pair = |left: &str, right: &str| {
        let i = find_pair_base(group, left, right).expect("a pair");
        group.pair_bases[i].baseline_ref.clone()
    };
    assert_eq!(pair(&a, &b), pair(&b, &c));
    assert_ne!(pair(&a, &c), pair(&a, &b));
}

#[test]
fn rename_does_not_break_link() {
    let mut env = ready_env();
    let first = copy(&mut env, "uid-b", &["sess-1"]);
    let new_id = first_copy_id(&first);
    env.execute(&format!(
        "UPDATE sessions SET title = '改过的标题', custom_title = '自定义名' WHERE id = '{new_id}'"
    ));

    let again = copy(&mut env, "uid-b", &["sess-1"]);
    assert_eq!(first_link_id(&again), new_id);
    assert_eq!(env.data.bodies.len(), 2);
    assert_eq!(env.store().groups[0].members.len(), 2);
}

#[test]
fn same_title_independent_sessions_stay_separate() {
    let mut env = ready_env();
    env.add_session("sess-2", "uid-a", "标题一");
    env.add_body("sess-2", &body_text("sess-2"));

    let report = copy(&mut env, "uid-b", &["sess-1", "sess-2"]);
    assert_eq!(list(&report, "copied").len(), 2);
    let ids: Vec<String> = list(&report, "copied")
        .iter()
        .map(|entry| text(entry, "newId"))
        .collect();
    assert_ne!(ids[0], ids[1]);

    assert_eq!(env.store().groups.len(), 2);
    assert_eq!(env.rows_for("uid-b").len(), 2);
    assert_eq!(env.data.bodies.len(), 4);

    let again = copy(&mut env, "uid-b", &["sess-1", "sess-2"]);
    assert_eq!(list(&again, "alreadyLinked").len(), 2);
    assert_eq!(env.data.bodies.len(), 4);
}

#[test]
fn invalid_target_member_is_superseded_and_rebuilt_without_resurrection() {
    let mut env = ready_env();
    let first = copy(&mut env, "uid-b", &["sess-1"]);
    let old_id = first_copy_id(&first);

    env.data.bodies.remove(&old_id);
    let rebuilt = copy(&mut env, "uid-b", &["sess-1"]);
    assert_eq!(list(&rebuilt, "copied").len(), 1);
    let new_id = first_copy_id(&rebuilt);
    assert_ne!(new_id, old_id);
    assert_eq!(env.data.bodies.len(), 2);

    let store = env.store();
    let group = &store.groups[0];
    assert_eq!(group.members.len(), 3);
    let actives: Vec<&str> = group
        .members
        .iter()
        .filter(|member| member.uid == "uid-b" && member.state == MemberState::Active)
        .map(|member| member.session_id.as_str())
        .collect();
    assert_eq!(actives, vec![new_id.as_str()]);
    assert_eq!(
        group
            .members
            .iter()
            .find(|member| member.session_id == old_id)
            .expect("the old member")
            .state,
        MemberState::Superseded
    );

    env.add_body(&old_id, &body_text(&old_id));
    let after_restore = copy(&mut env, "uid-b", &["sess-1"]);
    assert_eq!(first_link_id(&after_restore), new_id);
    assert_eq!(env.store().groups[0].members.len(), 3);
}

#[test]
fn identity_uses_uid_and_never_rebinds_by_account_id() {
    let mut env = ready_env();
    let member = |id: &str, account: &str, uid: &str, session: &str| LinkMember {
        member_id: id.to_string(),
        account_id: Some(account.to_string()),
        uid: uid.to_string(),
        session_id: session.to_string(),
        state: MemberState::Active,
        linked_at: 1,
        last_synced_at: None,
    };
    env.tool.links = Some(Ok(LinkStore {
        version: STORE_VERSION,
        revision: 1,
        groups: vec![LinkGroup {
            id: "g-1".to_string(),
            variant: WbVariant::Cn,
            created_at: 1,
            members: vec![
                member("m-a", "acc-uid-a", "uid-a", "sess-1"),
                member("m-b", "old-account-id", "uid-b", "sess-b"),
            ],
            pair_bases: Vec::new(),
        }],
    }));
    env.add_body("sess-b", &body_text("sess-b"));
    env.add_session("sess-b", "uid-b", "旧副本");

    let reused = copy(&mut env, "uid-b", &["sess-1"]);
    assert_eq!(first_link_id(&reused), "sess-b");
    assert_eq!(env.data.bodies.len(), 2);

    env.execute("UPDATE sessions SET user_id = 'uid-x' WHERE id = 'sess-b'");
    let fresh = copy(&mut env, "uid-b", &["sess-1"]);
    assert_eq!(list(&fresh, "copied").len(), 1);
    assert_eq!(env.store().groups[0].members.len(), 3);
}

#[test]
fn variant_isolation_keeps_groups_separate() {
    let mut env = ready_env();
    let cn = copy(&mut env, "uid-b", &["sess-1"]);
    assert_eq!(list(&cn, "copied").len(), 1);

    let mut ai = Data::new();
    ai.workbuddy = Some(database(SESSIONS));
    ai.edge = Some(database(MAPPING));
    ai.login = env.data.login.clone();
    ai.bodies
        .insert("ai-sess-1".to_string(), body_text("ai-sess-1"));
    ai.workbuddy
        .as_ref()
        .expect("the database")
        .execute_batch(
            "INSERT INTO sessions (id, user_id, title, cwd, created_at, updated_at, deleted_at, is_playground)
             VALUES ('ai-sess-1', 'uid-a', 'AI 会话', '/ws/a', 1, 2, NULL, 0)",
        )
        .expect("a row");
    let ai_report = request(
        &mut env.tool,
        &mut ai,
        WbVariant::Ai,
        Some("uid-b"),
        &["ai-sess-1"],
        &mut |_| false,
    )
    .expect("a report");
    assert_eq!(list(&ai_report, "copied").len(), 1);

    let store = env.store();
    assert_eq!(store.groups.len(), 2);
    let variants: Vec<&str> = store
        .groups
        .iter()
        .map(|group| group.variant.as_str())
        .collect();
    assert!(variants.contains(&"cn") && variants.contains(&"ai"), "{variants:?}");
    let mut seen = HashSet::new();
    for group in &store.groups {
        for member in &group.members {
            assert!(seen.insert(member.session_id.clone()), "{}", member.session_id);
        }
    }
    let ai_group = store
        .groups
        .iter()
        .find(|group| group.variant == WbVariant::Ai)
        .expect("the group");
    assert!(ai_group
        .members
        .iter()
        .any(|member| member.session_id == "ai-sess-1"));
}

#[test]
fn copy_report_carries_copied_already_linked_and_errors_together() {
    let mut env = ready_env();
    env.add_session("sess-2", "uid-a", "标题二");
    env.add_body("sess-2", &body_text("sess-2"));

    let first = copy(&mut env, "uid-b", &["sess-1", "sess-2"]);
    assert_eq!(list(&first, "copied").len(), 2);

    env.data.bodies.remove("sess-2");
    let mixed = copy(&mut env, "uid-b", &["sess-1", "sess-2"]);
    assert_eq!(text(&mixed, "sourceUid"), "uid-a");
    assert_eq!(text(&mixed, "targetUid"), "uid-b");
    assert_eq!(list(&mixed, "copied").len(), 0);
    assert_eq!(list(&mixed, "alreadyLinked").len(), 1);
    assert_eq!(text(&list(&mixed, "alreadyLinked")[0], "id"), "sess-1");
    assert_eq!(list(&mixed, "errors").len(), 1);
    assert_eq!(text(&list(&mixed, "errors")[0], "id"), "sess-2");
    assert_eq!(first_error(&mixed), "会话正文不存在，未复制");
    assert!(mixed.get("needsRecovery").is_none());
}

// ---------------------------------------------------------------------------
// A failure is seen, and can be mended
// ---------------------------------------------------------------------------

#[test]
fn missing_body_is_not_reported_as_success() {
    let mut env = ready_env();
    env.data.bodies.remove("sess-1");

    let report = copy(&mut env, "uid-b", &["sess-1"]);
    assert_eq!(list(&report, "copied").len(), 0);
    assert_eq!(first_error(&report), "会话正文不存在，未复制");
    assert_eq!(env.rows_for("uid-b").len(), 0);
    assert_eq!(env.data.bodies.len(), 0);
}

#[test]
fn truncated_body_is_not_reported_as_success() {
    let mut env = ready_env();
    env.add_body("sess-1", "{\"sessionId\":\"sess-1\"\n");

    let report = copy(&mut env, "uid-b", &["sess-1"]);
    assert_eq!(list(&report, "copied").len(), 0);
    let error = first_error(&report);
    assert!(error.contains("会话正文无法验证"), "{error}");
    assert_eq!(env.rows_for("uid-b").len(), 0);
}

#[test]
fn missing_source_row_is_not_reported_as_success() {
    let mut env = ready_env();
    env.execute("DELETE FROM sessions WHERE id = 'sess-1'");

    let report = copy(&mut env, "uid-b", &["sess-1"]);
    assert_eq!(list(&report, "copied").len(), 0);
    assert_eq!(first_error(&report), "数据库中找不到源会话记录，未复制");
    assert_eq!(env.data.bodies.len(), 1);
}

#[test]
fn source_row_of_another_account_is_rejected() {
    let mut env = ready_env();
    env.execute("UPDATE sessions SET user_id = 'uid-x' WHERE id = 'sess-1'");

    let report = copy(&mut env, "uid-b", &["sess-1"]);
    assert_eq!(list(&report, "copied").len(), 0);
    assert_eq!(first_error(&report), "源会话不属于当前账号，未复制");
}

#[test]
fn mapping_failure_keeps_pending_then_retry_reuses_same_uuid() {
    let mut env = ready_env();
    env.data.edge = None;

    let failed = copy(&mut env, "uid-b", &["sess-1"]);
    assert_eq!(list(&failed, "copied").len(), 0);
    let error = first_error(&failed);
    assert!(error.contains("云端映射库"), "{error}");
    assert!(needs_recovery(&failed));
    assert_eq!(env.data.bodies.len(), 2);

    let pending = env.pending();
    assert_eq!(pending.len(), 1);
    let new_id = pending[0].target.session_id.clone();
    assert!(!pending[0].phase.reached(OpPhase::Completed));
    assert_eq!(pending[0].phase, OpPhase::DbWritten);

    env.data.edge = Some(database(MAPPING));
    let retry = copy(&mut env, "uid-b", &["sess-1"]);
    assert_eq!(list(&retry, "copied").len(), 0);
    assert_eq!(first_link_id(&retry), new_id);
    assert!(retry.get("errors").is_none());
    assert!(env.pending().is_empty());
    assert_eq!(env.data.bodies.len(), 2);
    assert_eq!(env.rows_for("uid-b"), vec![new_id.clone()]);
    assert_eq!(env.data.channel(&new_id).as_deref(), Some("convmsg:uid-b"));
}

#[test]
fn link_commit_failure_keeps_pending_then_recovers_with_same_uuid() {
    let mut env = ready_env();
    copy(&mut env, "uid-c", &["sess-1"]);
    env.tool.links_are_writable = false;

    let failed = copy(&mut env, "uid-b", &["sess-1"]);
    env.tool.links_are_writable = true;
    assert_eq!(list(&failed, "copied").len(), 0);
    let error = first_error(&failed);
    assert!(error.contains("写入失败") || error.contains("关联存储"), "{error}");
    assert!(needs_recovery(&failed));

    let pending = env.pending();
    let target = pending
        .iter()
        .find(|operation| operation.target.uid == "uid-b")
        .expect("a record that is not at its end");
    let new_id = target.target.session_id.clone();

    let retry = copy(&mut env, "uid-b", &["sess-1"]);
    assert_eq!(list(&retry, "copied").len(), 0);
    assert_eq!(first_link_id(&retry), new_id);
    assert_eq!(env.data.bodies.len(), 3);
    assert_eq!(env.rows_for("uid-b"), vec![new_id]);
}

#[test]
fn body_write_failure_reports_error_without_db_row() {
    let mut env = ready_env();
    env.data.bodies_are_writable = false;
    let report = copy(&mut env, "uid-b", &["sess-1"]);
    assert_eq!(list(&report, "copied").len(), 0);
    let error = first_error(&report);
    assert!(error.contains("副本正文写入失败"), "{error}");
    assert_eq!(env.rows_for("uid-b").len(), 0);
    assert_eq!(env.data.bodies.len(), 1);
}

#[test]
fn corrupt_store_blocks_copy_and_preserves_original() {
    let mut env = ready_env();
    env.tool.links = Some(Err(()));

    let report = copy(&mut env, "uid-b", &["sess-1"]);
    assert_eq!(list(&report, "copied").len(), 0);
    let error = first_error(&report);
    assert!(
        error.contains("关联存储") && error.contains("已阻止复制"),
        "{error}"
    );
    assert_eq!(env.rows_for("uid-b").len(), 0);
    assert_eq!(env.data.bodies.len(), 1);
    assert!(matches!(env.tool.links, Some(Err(()))));
}

#[test]
fn unknown_store_version_blocks_copy() {
    let mut env = ready_env();
    env.tool.links = Some(Ok(LinkStore {
        version: 99,
        revision: 1,
        groups: Vec::new(),
    }));

    let report = copy(&mut env, "uid-b", &["sess-1"]);
    assert_eq!(list(&report, "copied").len(), 0);
    let error = first_error(&report);
    assert!(error.contains("版本"), "{error}");
    assert_eq!(env.rows_for("uid-b").len(), 0);
}

#[test]
fn copy_blocked_when_store_file_missing_but_baselines_remain() {
    let mut env = ready_env();
    let first = copy(&mut env, "uid-b", &["sess-1"]);
    let new_id = first_copy_id(&first);
    assert!(!env.tool.baselines.is_empty());

    env.tool.links = None;
    let report = copy(&mut env, "uid-b", &["sess-1"]);
    assert_eq!(list(&report, "copied").len(), 0);
    assert_eq!(list(&report, "alreadyLinked").len(), 0);
    let error = first_error(&report);
    assert!(error.contains("保留现场"), "{error}");
    assert!(env.tool.links.is_none());
    assert_eq!(env.data.bodies.len(), 2);
    assert_eq!(env.rows_for("uid-b"), vec![new_id]);
}

#[test]
fn concurrent_request_is_rejected_without_second_copy() {
    let mut env = ready_env();
    env.tool.locked = true;

    let err = try_copy(&mut env, "uid-b", &["sess-1"]).expect_err("the lock is held");
    assert!(err.contains("会话操作"), "{err}");
    assert_eq!(env.data.bodies.len(), 1);

    env.tool.locked = false;
    let report = copy(&mut env, "uid-b", &["sess-1"]);
    assert_eq!(list(&report, "copied").len(), 1);
}

#[test]
fn copy_rechecks_app_running_after_acquiring_lock() {
    let mut env = ready_env();
    let mut probes = 0;
    let mut lock_held_on_recheck = false;
    let err = request(
        &mut env.tool,
        &mut env.data,
        WbVariant::Cn,
        Some("uid-b"),
        &["sess-1"],
        &mut |tool| {
            probes += 1;
            if probes == 1 {
                return false;
            }
            lock_held_on_recheck = tool.locked;
            true
        },
    )
    .expect_err("the client is running");
    assert_eq!(err, SESSION_COPY_APP_RUNNING);
    assert_eq!(probes, 2);
    assert!(lock_held_on_recheck);
    assert_eq!(env.data.bodies.len(), 1);
    assert_eq!(env.rows_for("uid-b").len(), 0);
    assert!(env.tool.links.is_none());
    assert!(env.pending().is_empty());

    let report = copy(&mut env, "uid-b", &["sess-1"]);
    assert_eq!(list(&report, "copied").len(), 1);
}

#[test]
fn a_running_client_refuses_at_once() {
    let mut env = ready_env();
    let err = request(
        &mut env.tool,
        &mut env.data,
        WbVariant::Cn,
        Some("uid-b"),
        &["sess-1"],
        &mut |_| true,
    )
    .expect_err("the client is running");
    assert_eq!(err, SESSION_COPY_APP_RUNNING);
    assert!(!env.tool.locked);
}

// ---------------------------------------------------------------------------
// Recovery
// ---------------------------------------------------------------------------

#[test]
fn recovery_abandons_prepared_operation_when_source_is_gone() {
    let mut env = ready_env();
    env.tool
        .operations
        .push(operation("op-gone", "sess-gone", "new-gone", OpPhase::Prepared));

    let report = env.recover();
    assert_eq!(report.abandoned, vec!["op-gone".to_string()]);
    assert!(report.is_clean());
    assert!(!report.is_empty());
    assert!(env.pending().is_empty());
    assert_eq!(env.tool.operations[0].phase, OpPhase::Abandoned);
    assert_eq!(env.data.bodies.len(), 1);
}

#[test]
fn recovery_stops_when_intermediate_body_was_modified() {
    let mut env = ready_env();
    env.data.edge = None;
    let failed = copy(&mut env, "uid-b", &["sess-1"]);
    assert!(needs_recovery(&failed));
    let new_id = env.pending()[0].target.session_id.clone();

    let tampered = format!("{{\"sessionId\":\"{new_id}\",\"text\":\"别人改的\",\"type\":\"user\"}}\n");
    env.add_body(&new_id, &tampered);

    let report = env.recover();
    assert!(!report.is_clean());
    let issue = &report.needs_recovery[0];
    assert!(!issue.retryable);
    assert!(issue.reason.contains("目标正文与操作记录不一致"), "{}", issue.reason);
    assert_eq!(env.data.bodies[&new_id], tampered);

    env.data.edge = Some(database(MAPPING));
    let again = copy(&mut env, "uid-b", &["sess-1"]);
    assert_eq!(list(&again, "copied").len(), 0);
    assert_eq!(list(&again, "errors").len(), 1);
    assert!(first_error(&again).contains("上一次复制尚未完成"));
    assert_eq!(env.data.bodies.len(), 2);
}

#[test]
fn retry_after_partial_copy_does_not_duplicate() {
    let mut env = ready_env();
    env.data.edge = None;
    copy(&mut env, "uid-b", &["sess-1"]);
    let body_count_after_failure = env.data.bodies.len();

    let again = copy(&mut env, "uid-b", &["sess-1"]);
    assert_eq!(list(&again, "copied").len(), 0);
    assert_eq!(env.data.bodies.len(), body_count_after_failure);

    env.data.edge = Some(database(MAPPING));
    let retry = copy(&mut env, "uid-b", &["sess-1"]);
    assert_eq!(list(&retry, "alreadyLinked").len(), 1);
    assert_eq!(env.data.bodies.len(), body_count_after_failure);
    assert_eq!(env.rows_for("uid-b").len(), 1);
}

#[test]
fn recovery_completes_without_replaying_finished_stages() {
    let mut env = ready_env();
    let first = copy(&mut env, "uid-b", &["sess-1"]);
    let new_id = first_copy_id(&first);
    let operation_id = env.set_phase(&new_id, OpPhase::LinksCommitted);

    let before = env.store();
    let baselines_before = env.tool.baselines.len();

    let report = env.recover();
    assert_eq!(report.recovered, vec![operation_id]);
    assert!(report.is_clean(), "{:?}", report.needs_recovery);

    let after = env.store();
    assert_eq!(after, before);
    assert_eq!(env.tool.baselines.len(), baselines_before);
    assert_eq!(env.mapping_rows(), 1);
    assert_eq!(env.data.bodies.len(), 2);
    assert_eq!(env.rows_for("uid-b"), vec![new_id]);
    assert!(env.pending().is_empty());
}

#[test]
fn recovery_stops_when_committed_links_are_missing() {
    let mut env = ready_env();
    let first = copy(&mut env, "uid-b", &["sess-1"]);
    let new_id = first_copy_id(&first);
    env.set_phase(&new_id, OpPhase::LinksCommitted);
    env.tool.links = None;

    let report = env.recover();
    assert!(report.recovered.is_empty(), "{:?}", report.recovered);
    assert_eq!(report.needs_recovery.len(), 1);
    assert!(!report.needs_recovery[0].retryable);
    assert!(
        report.needs_recovery[0].reason.contains("关联"),
        "{}",
        report.needs_recovery[0].reason
    );
    assert!(env.tool.links.is_none());
    assert_eq!(env.data.bodies.len(), 2);
    assert_eq!(env.pending().len(), 1);
}

#[test]
fn recovery_stops_when_mapping_row_is_missing() {
    let mut env = ready_env();
    let first = copy(&mut env, "uid-b", &["sess-1"]);
    let new_id = first_copy_id(&first);
    env.set_phase(&new_id, OpPhase::LinksCommitted);
    env.data
        .edge
        .as_ref()
        .expect("the database")
        .execute("DELETE FROM edge_sync_mapping WHERE session_id = ?1", [&new_id])
        .expect("deleted");

    let revision_before = env.store().revision;
    let report = env.recover();
    assert!(report.recovered.is_empty(), "{:?}", report.recovered);
    assert_eq!(report.needs_recovery.len(), 1);
    assert!(!report.needs_recovery[0].retryable);
    assert!(
        report.needs_recovery[0].reason.contains("云端映射"),
        "{}",
        report.needs_recovery[0].reason
    );
    assert_eq!(env.store().revision, revision_before);
    assert_eq!(env.mapping_rows(), 0);
    assert_eq!(env.pending().len(), 1);
}

#[test]
fn unparseable_operation_log_blocks_copy_without_second_replica() {
    let mut env = ready_env();
    env.tool.problems.push("broken.json".to_string());

    let recovery = env.recover();
    assert!(!recovery.is_clean());
    assert_eq!(recovery.needs_recovery.len(), 1);
    assert!(!recovery.needs_recovery[0].retryable);
    assert!(
        recovery.needs_recovery[0]
            .reason
            .contains(UNPARSEABLE_OPERATION_REASON),
        "{}",
        recovery.needs_recovery[0].reason
    );
    assert_eq!(
        recovery.needs_recovery[0].reason,
        "操作记录无法解析（broken.json），已停止恢复以免产生重复副本"
    );

    let report = copy(&mut env, "uid-b", &["sess-1"]);
    assert_eq!(list(&report, "copied").len(), 0);
    assert_eq!(list(&report, "alreadyLinked").len(), 0);
    assert!(needs_recovery(&report));
    let error = first_error(&report);
    assert!(error.contains(UNPARSEABLE_OPERATION_REASON), "{error}");
    assert_eq!(env.data.bodies.len(), 1);
    assert_eq!(env.rows_for("uid-b").len(), 0);
}

#[test]
fn recovery_reports_store_unavailable_instead_of_writing() {
    let mut env = ready_env();
    env.tool.links = Some(Err(()));

    let report = env.recover();
    assert!(report.is_clean());
    assert!(report.is_empty());
    assert!(matches!(env.tool.links, Some(Err(()))));
}

#[test]
fn recovery_reports_the_lock_that_it_could_not_have() {
    let report = recover_pending_session_operations(
        Err("另一个会话操作正在进行".to_string()),
        &Vec::new(),
        Vec::new(),
    );
    assert_eq!(report, Err("另一个会话操作正在进行".to_string()));
    let report = recover_pending_session_operations(
        Ok(()),
        &Vec::new(),
        vec![RecoverOutcome::Recovered("op".to_string())],
    )
    .expect("the lock is held");
    assert_eq!(report.recovered, vec!["op".to_string()]);
}

#[test]
fn a_broken_off_copy_goes_on_from_every_phase() {
    let phases = [
        OpPhase::Prepared,
        OpPhase::BodyWritten,
        OpPhase::DbWritten,
        OpPhase::MappingWritten,
        OpPhase::LinksCommitted,
    ];
    for phase in phases {
        let mut env = ready_env();
        let first = copy(&mut env, "uid-b", &["sess-1"]);
        let new_id = first_copy_id(&first);
        let operation_id = env.set_phase(&new_id, phase);
        assert!(!phase.reached(OpPhase::Completed));

        let report = env.recover();
        assert_eq!(report.recovered, vec![operation_id], "{phase:?}");
        assert_eq!(env.data.bodies.len(), 2, "{phase:?}");
        assert_eq!(env.rows_for("uid-b"), vec![new_id], "{phase:?}");
        assert_eq!(env.store().groups[0].members.len(), 2, "{phase:?}");
        assert!(env.pending().is_empty(), "{phase:?}");
    }
}

#[test]
fn recovery_takes_the_source_as_it_is_now() {
    let mut env = ready_env();
    env.data.bodies_are_writable = false;
    copy(&mut env, "uid-b", &["sess-1"]);
    let new_id = env.pending()[0].target.session_id.clone();

    env.data.bodies_are_writable = true;
    env.add_body("sess-1", "{\"sessionId\":\"sess-1\",\"text\":\"later\"}\n");
    let report = env.recover();
    assert!(report.is_clean(), "{:?}", report.needs_recovery);
    assert!(env.data.bodies[&new_id].contains("later"));
    assert_eq!(env.tool.operations[0].expected_record_count, 1);
    assert_eq!(env.rows_for("uid-b"), vec![new_id]);
}

#[test]
fn recovery_stops_at_a_row_of_another_user() {
    let mut env = ready_env();
    env.data.edge = None;
    copy(&mut env, "uid-b", &["sess-1"]);
    let new_id = env.pending()[0].target.session_id.clone();

    env.execute(&format!("UPDATE sessions SET user_id = 'uid-x' WHERE id = '{new_id}'"));
    let report = env.recover();
    assert_eq!(report.needs_recovery[0].reason, "目标会话行归属异常，已停止恢复");

    env.execute(&format!("DELETE FROM sessions WHERE id = '{new_id}'"));
    let report = env.recover();
    assert_eq!(report.needs_recovery[0].reason, "目标会话行丢失，已停止恢复");

    env.data.bodies.remove(&new_id);
    let report = env.recover();
    assert_eq!(report.needs_recovery[0].reason, "目标正文丢失，已停止恢复");
    assert!(!report.needs_recovery[0].retryable);
}

#[test]
fn a_copy_is_put_down_before_anything_is_written() {
    let ids = CopyIds {
        session: "new".to_string(),
        operation: "op".to_string(),
        group: "group".to_string(),
    };
    let input = CopyInput {
        variant: WbVariant::Cn,
        session_id: "sess-1".to_string(),
        source_uid: "uid-a".to_string(),
        source_account_id: None,
        target_uid: "uid-b".to_string(),
        target_account_id: None,
    };
    let mut copy = SessionCopy::new(input, &Vec::new());
    let body = Some(body_text("sess-1"));
    copy.step_with(CopyEvent::Content(content_of(&body, "sess-1")), &ids, 1);
    copy.step_with(CopyEvent::Owner(Some("uid-a".to_string())), &ids, 2);
    copy.step_with(CopyEvent::Store(StoreState::Missing), &ids, 3);
    assert_eq!(copy.stage, CopyStage::CreateStore);
    copy.step_with(CopyEvent::Done(Ok(())), &ids, 4);
    copy.step_with(CopyEvent::Flag(true), &ids, 5);
    assert_eq!(copy.stage, CopyStage::Backup, "what was not due changes nothing");
    copy.step_with(CopyEvent::Named(Ok("b".to_string())), &ids, 6);
    assert_eq!(copy.stage, CopyStage::SavePrepared);
    let record = copy.operation.as_ref().expect("a record");
    assert_eq!(record.target.session_id, "new");
    assert_eq!(record.operation_id, "op");
    assert_eq!(record.group_id, "group");
    assert_eq!(record.phase, OpPhase::Prepared);
    assert_eq!((record.created_at, record.updated_at), (6, 6));
    assert_eq!(record.expected_record_count, 2);
    copy.step_with(CopyEvent::Done(Ok(())), &ids, 7);
    copy.step_with(CopyEvent::Flag(true), &ids, 8);
    assert_eq!(copy.stage, CopyStage::SaveFailure);
    copy.step_with(CopyEvent::Done(Ok(())), &ids, 9);
    assert_eq!(
        copy.result,
        Some(Err("目标正文已存在同名文件，已停止复制".to_string()))
    );
}

// ---------------------------------------------------------------------------
// Rows, titles and files
// ---------------------------------------------------------------------------

#[test]
fn session_display_title_prefers_custom_title() {
    assert_eq!(
        session_display_title(Some("自动标题".into()), Some("美团每日自动领券".into())),
        "美团每日自动领券"
    );
    assert_eq!(
        session_display_title(None, Some("美团每日自动领券".into())),
        "美团每日自动领券"
    );
    assert_eq!(
        session_display_title(Some("汉字详情页".into()), None),
        "汉字详情页"
    );
    assert_eq!(session_display_title(None, None), "(无标题)");
    assert_eq!(
        session_display_title(Some("  ".into()), Some("".into())),
        "(无标题)"
    );
}

#[test]
fn claw_workspace_detected_by_folder_name() {
    assert!(is_claw_workspace("/Users/apple/WorkBuddy/Claw"));
    assert!(is_claw_workspace("/Users/apple/WorkBuddy/claw/"));
    assert!(is_claw_workspace(r"C:\Users\me\WorkBuddy\Claw"));
    assert!(!is_claw_workspace("/Users/apple/WorkBuddy/ClawBot"));
    assert!(!is_claw_workspace(
        "/Users/apple/Documents/AI-PROJECT/LetterTotTown"
    ));
}

fn listed(env: &Env, uid: &str) -> Json {
    let mut statement = env
        .db()
        .prepare(&list_sessions_query(true, true))
        .expect("a statement");
    let rows = statement
        .query_map([uid], |row| {
            let id = row.get::<_, Option<String>>(0)?;
            Ok(SessionRow {
                has_history: id
                    .as_ref()
                    .is_some_and(|id| env.data.bodies.contains_key(id)),
                id,
                cwd: row.get(1)?,
                title: row.get(2)?,
                custom_title: row.get(3)?,
                updated_at: row.get(4)?,
                is_playground: row.get(5)?,
            })
        })
        .expect("rows")
        .flatten()
        .collect();
    list_sessions_for_user(&rows)
}

#[test]
fn list_sessions_marks_has_history() {
    let mut env = ready_env();
    let has_history = |json: &Json| match json {
        Json::Array(sessions) => {
            assert_eq!(sessions.len(), 1);
            assert_eq!(text(&sessions[0], "id"), "sess-1");
            sessions[0].get("hasHistory") == Some(&Json::Bool(true))
        }
        _ => panic!("a list"),
    };
    assert!(has_history(&listed(&env, "uid-a")));
    env.data.bodies.remove("sess-1");
    assert!(!has_history(&listed(&env, "uid-a")));
}

#[test]
fn listed_sessions_are_not_deleted_and_newest_first() {
    let env = ready_env();
    env.execute(
        "INSERT INTO sessions VALUES ('gone', 'uid-a', 't', NULL, '/ws', 1, 9000, 5, 0);
         INSERT INTO sessions VALUES ('claw', 'uid-a', 't', NULL, '/ws/Claw', 1, 8000, NULL, 0);
         INSERT INTO sessions VALUES ('new', 'uid-a', 't', 'mine', '/ws', 1, 7000, NULL, 1);
         INSERT INTO sessions VALUES ('old', 'uid-a', NULL, NULL, NULL, 1, NULL, NULL, NULL);",
    );
    let sessions = match listed(&env, "uid-a") {
        Json::Array(sessions) => sessions,
        _ => panic!("a list"),
    };
    let ids: Vec<String> = sessions.iter().map(|s| text(s, "id")).collect();
    assert_eq!(ids, vec!["new", "sess-1", "old"]);
    assert_eq!(text(&sessions[0], "title"), "mine");
    assert_eq!(sessions[0].get("isPlayground"), Some(&Json::Bool(true)));
    assert_eq!(sessions[0].get_i64("updatedAt"), Some(7000));
    assert_eq!(text(&sessions[2], "title"), "(无标题)");
    assert_eq!(text(&sessions[2], "cwd"), "");
    assert_eq!(sessions[2].get_i64("updatedAt"), Some(0));
    assert_eq!(sessions[2].get("isPlayground"), Some(&Json::Bool(false)));
    assert_eq!(
        list_sessions_query(false, false),
        "SELECT id, cwd, title, NULL, updated_at, 0 FROM sessions WHERE user_id = ?1 AND deleted_at IS NULL ORDER BY updated_at DESC"
    );
}

#[test]
fn insert_session_copy_duplicates_row_with_target_uid() {
    let env = ready_env();
    env.execute(
        "INSERT INTO sessions (id, user_id, title, cwd, created_at, updated_at, deleted_at, is_playground)
         VALUES ('src-1', 'uid-a', '旧标题', '/ws', 1000, 2000, NULL, 0)",
    );

    let outcome = env.data.insert_copy("new-uuid-1", "src-1", "uid-a", "uid-b");
    assert_eq!(outcome, Ok(DbCopyOutcome::Inserted));

    let row = env
        .db()
        .query_row(
            "SELECT id, user_id, title, deleted_at, is_playground, created_at, updated_at FROM sessions WHERE id = 'new-uuid-1'",
            [],
            |r| {
                Ok((
                    r.get::<_, String>(0)?,
                    r.get::<_, String>(1)?,
                    r.get::<_, String>(2)?,
                    r.get::<_, Option<i64>>(3)?,
                    r.get::<_, i64>(4)?,
                    r.get::<_, i64>(5)?,
                    r.get::<_, i64>(6)?,
                ))
            },
        )
        .expect("the copy");
    assert_eq!(
        row,
        (
            "new-uuid-1".to_string(),
            "uid-b".to_string(),
            "旧标题".to_string(),
            None,
            0,
            NOW,
            NOW
        )
    );
    let again = env.data.insert_copy("new-uuid-1", "src-1", "uid-a", "uid-b");
    assert!(again.is_err(), "a row is not written over");
}

#[test]
fn insert_session_copy_reports_missing_source_and_db() {
    let mut env = ready_env();
    assert_eq!(
        env.data.insert_copy("new-1", "missing", "uid-a", "uid-b"),
        Ok(DbCopyOutcome::SourceRowMissing)
    );
    env.data.workbuddy = Some(database("CREATE TABLE other (x INTEGER);"));
    assert_eq!(
        env.data.insert_copy("new-1", "sess-1", "uid-a", "uid-b"),
        Ok(DbCopyOutcome::NoSessionsTable)
    );
    env.data.workbuddy = None;
    assert_eq!(
        env.data.insert_copy("new-1", "sess-1", "uid-a", "uid-b"),
        Ok(DbCopyOutcome::NoDb)
    );
    assert_eq!(
        row_copy_outcome(&RowProbe {
            db_is_file: true,
            db_opens: false,
            has_sessions_table: false,
            has_source_row: false,
        }),
        Err("会话数据库无法打开".to_string())
    );
}

#[test]
fn claw_rows_are_not_copied() {
    let env = ready_env();
    env.execute("UPDATE sessions SET cwd = '/ws/Claw' WHERE id = 'sess-1'");
    assert_eq!(
        env.data.insert_copy("new-1", "sess-1", "uid-a", "uid-b"),
        Err("Claw 工作区绑定当前账号渠道，不支持复制".to_string())
    );
}

#[test]
fn register_edge_sync_mapping_reports_unavailable_reasons() {
    let mut env = ready_env();
    env.data.edge = Some(database("CREATE TABLE other (x INTEGER);"));
    assert_eq!(
        env.data.register(WbVariant::Cn, "new-1", "uid-b"),
        Err("云端映射库缺少 edge_sync_mapping 表".to_string())
    );
    env.data.edge = None;
    assert_eq!(
        env.data.register(WbVariant::Ai, "new-1", "uid-b"),
        Err("云端映射库 edge-sync-mapping-v4.db 不存在".to_string())
    );
    assert_eq!(
        mapping_unavailable(
            &MappingProbe {
                db_is_file: true,
                db_opens: false,
                has_table: false,
            },
            WbVariant::Cn
        ),
        Some("云端映射库无法打开".to_string())
    );

    env.data.edge = Some(database(MAPPING));
    assert_eq!(env.data.register(WbVariant::Cn, "new-1", "uid-b"), Ok(()));
    let (sid, cid, channel) = env
        .data
        .edge
        .as_ref()
        .expect("the database")
        .query_row(
            "SELECT session_id, conversation_id, msg_channel FROM edge_sync_mapping",
            [],
            |r| {
                Ok((
                    r.get::<_, String>(0)?,
                    r.get::<_, String>(1)?,
                    r.get::<_, String>(2)?,
                ))
            },
        )
        .expect("the row");
    assert_eq!(sid, "new-1");
    assert_eq!(cid, "new-1");
    assert_eq!(channel, "convmsg:uid-b");
    assert!(mapping_row_matches(&Some(channel), "uid-b"));
    assert!(!mapping_row_matches(&None, "uid-b"));
}

#[test]
fn backup_failure_is_propagated_instead_of_claimed_success() {
    let mut env = ready_env();
    let input = CopyInput {
        variant: WbVariant::Cn,
        session_id: "sess-1".to_string(),
        source_uid: "uid-a".to_string(),
        source_account_id: None,
        target_uid: "uid-b".to_string(),
        target_account_id: None,
    };
    let mut copy = SessionCopy::new(input, &Vec::new());
    copy.step(CopyEvent::Content(env.data.content("sess-1")), 1);
    copy.step(CopyEvent::Owner(env.data.owner("sess-1")), 1);
    copy.step(CopyEvent::Store(env.tool.load()), 1);
    copy.step(CopyEvent::Done(Ok(())), 1);
    assert_eq!(copy.stage, CopyStage::Backup);
    env.data.workbuddy = None;
    copy.step(
        CopyEvent::Named(Err("会话数据库不存在，未复制".to_string())),
        1,
    );
    let err = copy.result.expect("a result").expect_err("no backup");
    assert!(err.contains("会话数据库不存在"), "{err}");
    assert!(copy.operation.is_none());

    assert_eq!(backup_suffixes(), vec!["", "-wal", "-shm"]);
    assert_eq!(verify_backup("", 7, 7), Ok(()));
    assert_eq!(
        verify_backup("-wal", 7, 6),
        Err("备份 -wal 校验失败：大小不一致，未复制".to_string())
    );
}

#[test]
fn a_copied_row_is_checked_by_its_owner() {
    assert_eq!(verify_session_row(&Some("uid-b".to_string()), "uid-b"), Ok(()));
    assert_eq!(
        verify_session_row(&Some("uid-x".to_string()), "uid-b"),
        Err("会话行归属校验失败：期望 uid-b，实际 uid-x".to_string())
    );
    assert_eq!(
        verify_session_row(&None, "uid-b"),
        Err("会话行写入后不可见，未报告成功".to_string())
    );
}

#[test]
fn bodies_are_compared_without_the_sessions_own_id() {
    let a = content_of(&Some(body_text("sess-1")), "sess-1");
    let b = content_of(&Some(body_text("other")), "other");
    assert_eq!(a, b);
    let c = content_of(&Some(body_text("other")), "sess-1");
    assert_ne!(a, c);
    assert_eq!(content_of(&None, "sess-1"), ContentState::Missing);
    match a {
        ContentState::Ready(content) => assert_eq!(content.record_count, 2),
        other => panic!("{other:?}"),
    }
}

#[test]
fn finished_records_are_kept_up_to_a_number() {
    let record = |id: &str, phase: OpPhase, at: i64| {
        let mut o = operation(id, "s", "t", phase);
        o.updated_at = at;
        o
    };
    let records = vec![
        record("a", OpPhase::Completed, 5),
        record("b", OpPhase::Prepared, 1),
        record("c", OpPhase::Abandoned, 3),
        record("d", OpPhase::Completed, 3),
        record("e", OpPhase::Completed, 9),
    ];
    assert_eq!(
        prune_operations(&records, WbVariant::Cn, 2),
        vec!["c".to_string(), "d".to_string()]
    );
    assert_eq!(prune_operations(&records, WbVariant::Cn, 3), vec!["c".to_string()]);
    assert!(prune_operations(&records, WbVariant::Ai, 0).is_empty());
}

#[test]
fn a_record_only_goes_forward() {
    let mut record = operation("op", "s", "t", OpPhase::DbWritten);
    let before = record.clone();
    assert!(!advance_operation(&mut record, OpPhase::BodyWritten, 7));
    assert!(!advance_operation(&mut record, OpPhase::DbWritten, 7));
    assert_eq!(record, before);
    assert!(advance_operation(&mut record, OpPhase::Completed, 7));
    assert_eq!(record.phase, OpPhase::Completed);
    assert_eq!(record.updated_at, 7);
    assert_eq!(record.created_at, before.created_at);
}

#[test]
fn a_copy_is_found_while_another_waits() {
    let mut env = ready_env();
    env.add_session("sess-2", "uid-a", "标题二");
    env.add_body("sess-2", &body_text("sess-2"));
    env.data.edge = None;
    copy(&mut env, "uid-b", &["sess-2"]);
    env.data.edge = Some(database(MAPPING));
    let stuck = env.pending()[0].target.session_id.clone();
    env.add_body(&stuck, "{\"text\":\"别人改的\"}\n");

    let first = copy(&mut env, "uid-b", &["sess-1"]);
    let new_id = first_copy_id(&first);
    assert!(needs_recovery(&first));
    let bodies = env.data.bodies.clone();
    let again = copy(&mut env, "uid-b", &["sess-1"]);
    assert_eq!(list(&again, "copied").len(), 0);
    assert_eq!(first_link_id(&again), new_id);
    assert!(needs_recovery(&again));
    assert_eq!(env.data.bodies, bodies);

    env.set_login("uid-b");
    let back = copy(&mut env, "uid-a", &[&new_id]);
    assert_eq!(first_link_id(&back), "sess-1");
    assert_eq!(env.data.bodies, bodies);
}

#[test]
fn a_record_before_its_end_is_only_completed_by_the_next_request() {
    let mut env = ready_env();
    let first = copy(&mut env, "uid-b", &["sess-1"]);
    let new_id = first_copy_id(&first);
    env.set_phase(&new_id, OpPhase::LinksCommitted);
    let store = env.store();
    let retry = copy(&mut env, "uid-b", &["sess-1"]);
    assert_eq!(first_link_id(&retry), new_id);
    assert!(!needs_recovery(&retry));
    assert_eq!(env.store(), store);
    assert!(env.pending().is_empty());
}

#[test]
fn reports_hold_every_id_once() {
    let issue = |id: &str| {
        RecoverOutcome::NeedsRecovery(RecoveryIssue {
            operation_id: id.to_string(),
            reason: "x".to_string(),
            retryable: true,
        })
    };
    let report = recover_pending_session_operations_at(
        &vec!["p.json".to_string()],
        vec![
            RecoverOutcome::Recovered("a".to_string()),
            issue("b"),
            RecoverOutcome::Abandoned("c".to_string()),
            RecoverOutcome::Recovered("d".to_string()),
        ],
    );
    assert_eq!(report.recovered, vec!["a".to_string(), "d".to_string()]);
    assert_eq!(report.abandoned, vec!["c".to_string()]);
    let ids: Vec<&str> = report
        .needs_recovery
        .iter()
        .map(|i| i.operation_id.as_str())
        .collect();
    assert_eq!(ids, vec!["p.json", "b"]);
}
