//! Sessions of the desktop client: where they are kept, how they are listed, and how the row of
//! one is copied for another account.

use vstd::prelude::*;
use vstd::slice::slice_subrange;

use crate::json;
use crate::json::Json;
use crate::json::JsonView;
use crate::path::FilePath;
use crate::rate_limit_events::nonblank;
use crate::rate_limit_events::nonempty_text;
use crate::rate_limit_hook::STORE_DIR_NAME;
use crate::text;
use crate::variant::WbVariant;

verus! {

/// The complaint where an edition's data cannot take copies of sessions.
pub const SESSION_COPY_UNSUPPORTED: &'static str = "该档位暂不支持会话复制";

/// The complaint while the client is running: sessions are written only when it is not.
pub const SESSION_COPY_APP_RUNNING: &'static str = "WorkBuddy 正在运行，已阻止直接写入会话数据；请先退出 WorkBuddy 后重试";

// ---------------------------------------------------------------------------
// Paths
// ---------------------------------------------------------------------------

/// The directories and files that matter to sessions.
#[derive(Clone, Debug, PartialEq, Eq)]
pub struct SessionPaths {
    /// The switcher's own directory.
    pub store_root: FilePath,
    /// The data directory of the edition.
    pub data_root: FilePath,
    /// The login of the edition.
    pub auth_file: FilePath,
}

/// The name of the database that maps sessions to the cloud; the editions differ in it.
pub open spec fn edge_sync_name(variant: WbVariant) -> Seq<char> {
    match variant {
        WbVariant::Cn => "edge-sync-mapping-v2.db"@,
        WbVariant::Ai => "edge-sync-mapping-v4.db"@,
    }
}

fn edge_sync_db_name(variant: WbVariant) -> (r: &'static str)
    ensures
        r@ == edge_sync_name(variant),
{
    match variant {
        WbVariant::Cn => "edge-sync-mapping-v2.db",
        WbVariant::Ai => "edge-sync-mapping-v4.db",
    }
}

/// The session database of an edition, given the home directory.
pub fn workbuddy_db_path(variant: WbVariant, home: &FilePath) -> (r: FilePath)
    ensures
        r@ == home@.join(variant.data_dir()).join("workbuddy.db"@),
{
    home.join(variant.data_dir_name()).join("workbuddy.db")
}

impl SessionPaths {
    /// The paths for an edition, given the home directory and the edition's login.
    pub fn for_variant(variant: WbVariant, home: &FilePath, auth_file: &FilePath) -> (r: Self)
        ensures
            r.store_root@ == home@.join(STORE_DIR_NAME@),
            r.data_root@ == home@.join(variant.data_dir()),
            r.auth_file@ == auth_file@,
    {
        SessionPaths {
            store_root: home.join(STORE_DIR_NAME),
            data_root: home.join(variant.data_dir_name()),
            auth_file: auth_file.copy(),
        }
    }

    /// The session database.
    pub fn workbuddy_db(&self) -> (r: FilePath)
        ensures
            r@ == self.data_root@.join("workbuddy.db"@),
    {
        self.data_root.join("workbuddy.db")
    }

    /// The directory of the sessions' bodies.
    pub fn projects_dir(&self) -> (r: FilePath)
        ensures
            r@ == self.data_root@.join("projects"@),
    {
        self.data_root.join("projects")
    }

    /// The database that maps sessions to the cloud.
    pub fn edge_sync_db(&self, variant: WbVariant) -> (r: FilePath)
        ensures
            r@ == self.data_root@.join(edge_sync_name(variant)),
    {
        self.data_root.join(edge_sync_db_name(variant))
    }

    /// The directory of backups.
    pub fn backup_root(&self) -> (r: FilePath)
        ensures
            r@ == self.store_root@.join("backups"@),
    {
        self.store_root.join("backups")
    }

    /// The store of links between sessions.
    pub fn session_links_file(&self) -> (r: FilePath)
        ensures
            r@ == self.store_root@.join("session_links.json"@),
    {
        self.store_root.join("session_links.json")
    }

    /// The directory of what belongs to the store of links.
    pub fn session_links_dir(&self) -> (r: FilePath)
        ensures
            r@ == self.store_root@.join("session-links"@),
    {
        self.store_root.join("session-links")
    }

    /// The directory of baselines.
    pub fn baselines_dir(&self) -> (r: FilePath)
        ensures
            r@ == self.store_root@.join("session-links"@).join("baselines"@),
    {
        self.session_links_dir().join("baselines")
    }

    /// The directory of the records of operations.
    pub fn operations_dir(&self) -> (r: FilePath)
        ensures
            r@ == self.store_root@.join("session-links"@).join("operations"@),
    {
        self.session_links_dir().join("operations")
    }

    /// The directory of locks.
    pub fn locks_dir(&self) -> (r: FilePath)
        ensures
            r@ == self.store_root@.join("locks"@),
    {
        self.store_root.join("locks")
    }

    /// The lock for operations on an edition's sessions.
    pub fn variant_ops_lock_file(&self, variant: WbVariant) -> (r: FilePath)
        ensures
            r@ == self.store_root@.join("locks"@).join(
                "session-ops-"@ + variant.name() + ".lock"@,
            ),
    {
        self.locks_dir().join(text::concat3("session-ops-", variant.as_str(), ".lock").as_str())
    }

    /// The lock for the store of links.
    pub fn link_store_lock_file(&self) -> (r: FilePath)
        ensures
            r@ == self.store_root@.join("locks"@).join("session-links.lock"@),
    {
        self.locks_dir().join("session-links.lock")
    }

    /// The directory for a backup of an edition's database that is made at the given time.
    pub fn session_backup_root(&self, variant: WbVariant, time: &str) -> (r: FilePath)
        ensures
            r@ == self.store_root@.join("backups"@).join("sessions"@).join(variant.name()).join(
                time@,
            ),
    {
        self.backup_root().join("sessions").join(variant.as_str()).join(time)
    }
}

/// What was found in an edition's data directory.
#[derive(Clone, Copy)]
pub struct DataRootProbe {
    pub projects_is_dir: bool,
    pub db_is_file: bool,
    pub db_opens: bool,
    pub has_sessions_table: bool,
}

/// Whether the data can take copies of sessions: it must have the directory of bodies and the
/// table of sessions, or a copy would be a row without a body.
pub fn session_copy_supported_at(probe: &DataRootProbe) -> (r: bool)
    ensures
        r == (probe.projects_is_dir && probe.db_is_file && probe.db_opens
            && probe.has_sessions_table),
{
    probe.projects_is_dir && probe.db_is_file && probe.db_opens && probe.has_sessions_table
}

/// The user id in a login.
pub open spec fn user_uid(root: JsonView) -> Option<Seq<char>> {
    match json::field(root, "account"@) {
        Some(account) => json::text_in(json::field(account, "uid"@)),
        None => None,
    }
}

/// The user id in a login that has been read.
pub fn user_uid_in(root: &Json) -> (r: Option<String>)
    ensures
        text::opt_text(r) == user_uid(root@),
{
    match root.get("account") {
        Some(account) => account.get_text("uid"),
        None => None,
    }
}

/// The user id in the text of a login; none where there is no login.
pub open spec fn login_user(login: Option<Seq<char>>) -> Option<Seq<char>> {
    match login {
        Some(t) => match json::parsed(t) {
            Some(root) => user_uid(root),
            None => None,
        },
        None => None,
    }
}

/// The user that is logged in, from the text of the login.
pub fn current_user_uid_at(login: &Option<String>) -> (r: Option<String>)
    ensures
        text::opt_text(r) == login_user(text::opt_text(*login)),
{
    match login {
        Some(t) => match json::parse_json(t.as_str()) {
            Some(root) => user_uid_in(&root),
            None => None,
        },
        None => None,
    }
}

/// The texts of the logins of the two editions.
pub struct Logins {
    pub cn: Option<String>,
    pub ai: Option<String>,
}

impl Logins {
    pub open spec fn of(&self, variant: WbVariant) -> Option<Seq<char>> {
        match variant {
            WbVariant::Cn => text::opt_text(self.cn),
            WbVariant::Ai => text::opt_text(self.ai),
        }
    }
}

/// The user that is logged in to an edition.
pub fn current_user_uid(variant: WbVariant, logins: &Logins) -> (r: Option<String>)
    ensures
        text::opt_text(r) == login_user(logins.of(variant)),
{
    match variant {
        WbVariant::Cn => current_user_uid_at(&logins.cn),
        WbVariant::Ai => current_user_uid_at(&logins.ai),
    }
}

// ---------------------------------------------------------------------------
// Listing
// ---------------------------------------------------------------------------

/// The name that the client shows: the one that the user gave, else the title.
pub open spec fn display_title(title: Option<Seq<char>>, custom: Option<Seq<char>>) -> Seq<char> {
    match (nonblank(custom), nonblank(title)) {
        (Some(t), _) => t,
        (None, Some(t)) => t,
        (None, None) => "(无标题)"@,
    }
}

/// The name that the client shows for a session.
pub fn session_display_title(title: Option<String>, custom_title: Option<String>) -> (r: String)
    ensures
        r@ == display_title(text::opt_text(title), text::opt_text(custom_title)),
{
    match nonempty_text(custom_title) {
        Some(t) => t,
        None => match nonempty_text(title) {
            Some(t) => t,
            None => "(无标题)".to_owned(),
        },
    }
}

pub open spec fn is_slash(c: char) -> bool {
    c == '/' || c == '\\'
}

/// The text without the slashes at its end.
pub open spec fn without_end_slashes(t: Seq<char>) -> Seq<char>
    decreases t.len(),
{
    if t.len() > 0 && is_slash(t.last()) {
        without_end_slashes(t.drop_last())
    } else {
        t
    }
}

/// What follows the last slash.
pub open spec fn last_name(t: Seq<char>) -> Seq<char>
    decreases t.len(),
{
    if t.len() == 0 || is_slash(t.last()) {
        seq![]
    } else {
        last_name(t.drop_last()).push(t.last())
    }
}

pub open spec fn ascii_lower(c: char) -> char {
    if 'A' <= c <= 'Z' {
        (c as u32 + 32) as char
    } else {
        c
    }
}

/// The directory is named "claw", in capitals or not: such a workspace is bound to its account.
pub open spec fn is_claw(cwd: Seq<char>) -> bool {
    last_name(without_end_slashes(text::trim(cwd))).map_values(|c: char| ascii_lower(c))
        == "claw"@
}

proof fn lemma_last_name(t: Seq<char>, k: int)
    requires
        0 <= k <= t.len(),
        k > 0 ==> is_slash(t[k - 1]),
        forall|i: int| k <= i < t.len() ==> !is_slash(#[trigger] t[i]),
    ensures
        last_name(t) == t.skip(k),
    decreases t.len(),
{
    if k == t.len() {
        assert(t.skip(k) =~= seq![]);
    } else {
        assert(!is_slash(t[t.len() - 1]));
        assert forall|i: int| k <= i < t.drop_last().len() implies !is_slash(
            #[trigger] t.drop_last()[i],
        ) by {
            assert(t.drop_last()[i] == t[i]);
        }
        lemma_last_name(t.drop_last(), k);
        assert(t.drop_last().skip(k).push(t.last()) =~= t.skip(k));
    }
}

/// Whether the directory is a "claw" workspace: it is bound to a channel of its account, so that
/// a copy of its sessions would be of no use to another.
pub fn is_claw_workspace(cwd: &str) -> (r: bool)
    ensures
        r == is_claw(cwd@),
{
    proof {
        reveal_strlit("claw");
    }
    let chars = text::chars_of(cwd);
    let t = text::trimmed(chars.as_slice());
    let mut n: usize = t.len();
    assert(t@.take(n as int) =~= t@);
    while n > 0 && (t[n - 1] == '/' || t[n - 1] == '\\')
        invariant
            n <= t@.len(),
            without_end_slashes(t@) == without_end_slashes(t@.take(n as int)),
        decreases n,
    {
        assert(t@.take(n as int).drop_last() =~= t@.take(n - 1));
        n -= 1;
    }
    let ghost u = t@.take(n as int);
    let mut k: usize = n;
    while k > 0 && !(t[k - 1] == '/' || t[k - 1] == '\\')
        invariant
            k <= n <= t@.len(),
            u == t@.take(n as int),
            forall|i: int| k <= i < n ==> !is_slash(#[trigger] u[i]),
        decreases k,
    {
        k -= 1;
    }
    proof {
        lemma_last_name(u, k as int);
    }
    let name = slice_subrange(t, k, n);
    assert(name@ =~= u.skip(k as int));
    let ghost low = name@.map_values(|c: char| ascii_lower(c));
    if name.len() != 4 {
        assert(low.len() != "claw"@.len());
        return false;
    }
    let r = (name[0] == 'c' || name[0] == 'C') && (name[1] == 'l' || name[1] == 'L') && (name[2]
        == 'a' || name[2] == 'A') && (name[3] == 'w' || name[3] == 'W');
    proof {
        assert(low[0] == ascii_lower(name@[0]));
        assert(low[1] == ascii_lower(name@[1]));
        assert(low[2] == ascii_lower(name@[2]));
        assert(low[3] == ascii_lower(name@[3]));
        if r {
            assert(low =~= "claw"@);
        } else {
            if low == "claw"@ {
                assert(low[0] == 'c' && low[1] == 'l' && low[2] == 'a' && low[3] == 'w');
                assert(false);
            }
        }
    }
    r
}

/// The query for the sessions of a user; a column that the database lacks is left out.
pub open spec fn list_query(has_custom: bool, has_playground: bool) -> Seq<char> {
    "SELECT id, cwd, title, "@ + (if has_custom {
        "custom_title"@
    } else {
        "NULL"@
    }) + ", updated_at, "@ + (if has_playground {
        "is_playground"@
    } else {
        "0"@
    })
        + " FROM sessions WHERE user_id = ?1 AND deleted_at IS NULL ORDER BY updated_at DESC"@
}

/// The query for the sessions of a user that are not deleted, the latest first.
pub fn list_sessions_query(has_custom: bool, has_playground: bool) -> (r: String)
    ensures
        r@ == list_query(has_custom, has_playground),
{
    let mut sql = "SELECT id, cwd, title, ".to_owned();
    if has_custom {
        sql.append("custom_title");
    } else {
        sql.append("NULL");
    }
    sql.append(", updated_at, ");
    if has_playground {
        sql.append("is_playground");
    } else {
        sql.append("0");
    }
    sql.append(
        " FROM sessions WHERE user_id = ?1 AND deleted_at IS NULL ORDER BY updated_at DESC",
    );
    sql
}

/// A row of the table of sessions, and whether the session has a body.
#[derive(Debug, PartialEq, Eq)]
pub struct SessionRow {
    pub id: Option<String>,
    pub cwd: Option<String>,
    pub title: Option<String>,
    pub custom_title: Option<String>,
    pub updated_at: Option<i64>,
    pub is_playground: Option<i64>,
    pub has_history: bool,
}

/// The text, or nothing where it is missing.
pub open spec fn or_empty(t: Option<String>) -> Seq<char> {
    match t {
        Some(s) => s@,
        None => seq![],
    }
}

/// How a session is shown.
pub open spec fn session_json(row: SessionRow) -> JsonView {
    JsonView::Object(
        map![
            "id"@ => JsonView::Text(or_empty(row.id)),
            "title"@ => JsonView::Text(
                display_title(text::opt_text(row.title), text::opt_text(row.custom_title)),
            ),
            "cwd"@ => JsonView::Text(or_empty(row.cwd)),
            "updatedAt"@ => json::integer_view(match row.updated_at { Some(n) => n, None => 0 }),
            "hasHistory"@ => JsonView::Bool(row.has_history),
            "isPlayground"@ => JsonView::Bool(row.is_playground is Some && row.is_playground->0 != 0)
        ],
    )
}

/// How the sessions are shown; those of "claw" workspaces are not.
pub open spec fn sessions_json(rows: Seq<SessionRow>) -> Seq<JsonView>
    decreases rows.len(),
{
    if rows.len() == 0 {
        seq![]
    } else if is_claw(or_empty(rows.last().cwd)) {
        sessions_json(rows.drop_last())
    } else {
        sessions_json(rows.drop_last()).push(session_json(rows.last()))
    }
}

fn text_or_empty(t: &Option<String>) -> (r: String)
    ensures
        r@ == or_empty(*t),
{
    match t {
        Some(s) => s.clone(),
        None => String::new(),
    }
}

fn session_value(row: &SessionRow) -> (r: Json)
    ensures
        r@ == session_json(*row),
{
    let title = session_display_title(row.title.clone(), row.custom_title.clone());
    let updated_at: i64 = match row.updated_at {
        Some(n) => n,
        None => 0,
    };
    let playground = match row.is_playground {
        Some(n) => n != 0,
        None => false,
    };
    let fields = json::with_field(Vec::new(), "id", Json::Text(text_or_empty(&row.id)));
    let fields = json::with_field(fields, "title", Json::Text(title));
    let fields = json::with_field(fields, "cwd", Json::Text(text_or_empty(&row.cwd)));
    let fields = json::with_field(fields, "updatedAt", json::integer(updated_at));
    let fields = json::with_field(fields, "hasHistory", Json::Bool(row.has_history));
    let fields = json::with_field(fields, "isPlayground", Json::Bool(playground));
    Json::Object(fields)
}

/// The sessions of a user, from the rows of the table.
pub fn list_sessions_for_user(rows: &Vec<SessionRow>) -> (r: Json)
    ensures
        r@ == JsonView::Array(sessions_json(rows@)),
{
    let mut out: Vec<Json> = Vec::new();
    let mut i: usize = 0;
    while i < rows.len()
        invariant
            i <= rows@.len(),
            json::item_views(out@) == sessions_json(rows@.take(i as int)),
        decreases rows@.len() - i,
    {
        let ghost before = out@;
        assert(rows@.take(i + 1).drop_last() =~= rows@.take(i as int));
        assert(rows@.take(i + 1).last() == rows@[i as int]);
        let cwd = text_or_empty(&rows[i].cwd);
        if !is_claw_workspace(cwd.as_str()) {
            out.push(session_value(&rows[i]));
            assert(out@.drop_last() =~= before);
        }
        i += 1;
    }
    assert(rows@.take(rows@.len() as int) =~= rows@);
    Json::Array(out)
}

/// The name of the file of a session's body.
pub fn body_file_name(session_id: &str) -> (r: String)
    ensures
        r@ == session_id@ + ".jsonl"@,
{
    text::concat(session_id, ".jsonl")
}

/// The body of a copy: each mention of the session's id is of the copy's.
pub fn copied_body(body: &str, session_id: &str, new_id: &str) -> (r: String)
    ensures
        r@ == text::replaced(body@, session_id@, new_id@),
{
    text::replace_text(body, session_id, new_id)
}

// ---------------------------------------------------------------------------
// Copying a row
// ---------------------------------------------------------------------------

/// What a column of the copy of a row holds.
#[derive(Debug, PartialEq, Eq)]
pub enum CellPlan {
    /// What the column of the row holds.
    Keep,
    Text(String),
    Integer(i64),
    Null,
}

#[verifier::ext_equal]
pub enum CellView {
    Keep,
    Text(Seq<char>),
    Integer(i64),
    Null,
}

impl CellPlan {
    pub open spec fn view(&self) -> CellView {
        match self {
            CellPlan::Keep => CellView::Keep,
            CellPlan::Text(t) => CellView::Text(t@),
            CellPlan::Integer(n) => CellView::Integer(*n),
            CellPlan::Null => CellView::Null,
        }
    }
}

pub open spec fn cell_views(cells: Seq<CellPlan>) -> Seq<CellView> {
    cells.map_values(|c: CellPlan| c@)
}

/// What a column of the copy holds: the copy's id, its user, the time at which it is made, and
/// for the rest what the row holds; the copy is not deleted.
pub open spec fn copied_cell(
    column: Seq<char>,
    new_id: Seq<char>,
    target_uid: Seq<char>,
    now: i64,
) -> CellView {
    if column == "id"@ {
        CellView::Text(new_id)
    } else if column == "user_id"@ {
        CellView::Text(target_uid)
    } else if column == "created_at"@ || column == "updated_at"@ {
        CellView::Integer(now)
    } else if column == "deleted_at"@ {
        CellView::Null
    } else {
        CellView::Keep
    }
}

/// The row is of a "claw" workspace; `values` are the texts of the row's columns.
pub open spec fn row_is_claw(columns: Seq<Seq<char>>, values: Seq<Option<String>>) -> bool {
    exists|i: int|
        0 <= i < columns.len() && #[trigger] columns[i] == "cwd"@ && values[i] is Some && is_claw(
            values[i]->0@,
        )
}

fn cell_of(column: &str, new_id: &str, target_uid: &str, now: i64) -> (r: CellPlan)
    ensures
        r@ == copied_cell(column@, new_id@, target_uid@, now),
{
    if text::same_text(column, "id") {
        CellPlan::Text(new_id.to_owned())
    } else if text::same_text(column, "user_id") {
        CellPlan::Text(target_uid.to_owned())
    } else if text::same_text(column, "created_at") || text::same_text(column, "updated_at") {
        CellPlan::Integer(now)
    } else if text::same_text(column, "deleted_at") {
        CellPlan::Null
    } else {
        CellPlan::Keep
    }
}

/// The copy of a session's row for another user, column by column, given the texts of the row's
/// columns. A row of a "claw" workspace is not copied.
pub fn copied_row(
    columns: &Vec<String>,
    values: &Vec<Option<String>>,
    new_id: &str,
    target_uid: &str,
    now: i64,
) -> (r: Result<Vec<CellPlan>, String>)
    requires
        values@.len() == columns@.len(),
    ensures
        match r {
            Ok(cells) => !row_is_claw(text::texts(columns@), values@) && cell_views(cells@)
                == text::texts(columns@).map_values(
                |c: Seq<char>| copied_cell(c, new_id@, target_uid@, now),
            ),
            Err(e) => row_is_claw(text::texts(columns@), values@) && e@
                == "Claw 工作区绑定当前账号渠道，不支持复制"@,
        },
        r is Ok ==> r->Ok_0@.len() == columns@.len() && forall|i: int|
            0 <= i < columns@.len() && columns@[i]@ != "id"@ && columns@[i]@ != "user_id"@
                && columns@[i]@ != "created_at"@ && columns@[i]@ != "updated_at"@ && columns@[i]@
                != "deleted_at"@ ==> (#[trigger] r->Ok_0@[i])@ == CellView::Keep,
        r is Ok ==> forall|i: int|
            0 <= i < columns@.len() ==> {
                &&& columns@[i]@ == "id"@ ==> (#[trigger] r->Ok_0@[i])@ == CellView::Text(new_id@)
                &&& columns@[i]@ == "user_id"@ ==> r->Ok_0@[i]@ == CellView::Text(target_uid@)
                &&& columns@[i]@ == "created_at"@ || columns@[i]@ == "updated_at"@
                    ==> r->Ok_0@[i]@ == CellView::Integer(now)
                &&& columns@[i]@ == "deleted_at"@ ==> r->Ok_0@[i]@ == CellView::Null
            },
{
    proof {
        lemma_column_names();
    }
    let ghost names = text::texts(columns@);
    let mut cells: Vec<CellPlan> = Vec::new();
    let mut i: usize = 0;
    while i < columns.len()
        invariant
            i <= columns@.len(),
            values@.len() == columns@.len(),
            names == text::texts(columns@),
            cells@.len() == i,
            forall|j: int|
                0 <= j < i ==> (#[trigger] cells@[j])@ == copied_cell(
                    names[j],
                    new_id@,
                    target_uid@,
                    now,
                ),
            forall|j: int|
                0 <= j < i ==> !(#[trigger] names[j] == "cwd"@ && values@[j] is Some && is_claw(
                    values@[j]->0@,
                )),
        decreases columns@.len() - i,
    {
        assert(names[i as int] == columns@[i as int]@);
        if text::same_text(columns[i].as_str(), "cwd") {
            match &values[i] {
                Some(cwd) => {
                    if is_claw_workspace(cwd.as_str()) {
                        assert(names[i as int] == "cwd"@);
                        return Err("Claw 工作区绑定当前账号渠道，不支持复制".to_owned());
                    }
                },
                None => {},
            }
        }
        cells.push(cell_of(columns[i].as_str(), new_id, target_uid, now));
        i += 1;
    }
    assert(cell_views(cells@) =~= names.map_values(
        |c: Seq<char>| copied_cell(c, new_id@, target_uid@, now),
    ));
    Ok(cells)
}

/// The statement that inserts a row with the given columns. It does not replace: a copy whose id
/// is taken fails.
pub open spec fn insert_sql(columns: Seq<Seq<char>>) -> Seq<char> {
    "INSERT INTO sessions ("@ + text::joined(columns, ", "@) + ") VALUES ("@ + text::joined(
        columns.map_values(|c: Seq<char>| "?"@),
        ", "@,
    ) + ")"@
}

pub fn insert_statement(columns: &Vec<String>) -> (r: String)
    ensures
        r@ == insert_sql(text::texts(columns@)),
{
    let mut marks: Vec<String> = Vec::new();
    let mut i: usize = 0;
    while i < columns.len()
        invariant
            i <= columns@.len(),
            marks@.len() == i,
            forall|j: int| 0 <= j < i ==> (#[trigger] marks@[j])@ == "?"@,
        decreases columns@.len() - i,
    {
        marks.push("?".to_owned());
        i += 1;
    }
    assert(text::texts(marks@) =~= text::texts(columns@).map_values(|c: Seq<char>| "?"@));
    let mut sql = "INSERT INTO sessions (".to_owned();
    let names = text::join_texts(columns, ", ");
    let values = text::join_texts(&marks, ", ");
    sql.append(names.as_str());
    sql.append(") VALUES (");
    sql.append(values.as_str());
    sql.append(")");
    sql
}

/// How the insertion of a copy's row ended, where nothing failed.
#[derive(Clone, Copy, PartialEq, Eq, Structural, Debug)]
pub enum DbCopyOutcome {
    Inserted,
    SourceRowMissing,
    NoSessionsTable,
    NoDb,
}

/// What was found of the session database before a row is copied.
#[derive(Clone, Copy)]
pub struct RowProbe {
    pub db_is_file: bool,
    pub db_opens: bool,
    pub has_sessions_table: bool,
    pub has_source_row: bool,
}

/// How far the copy of a row can get: what is missing, or that it can be inserted.
pub fn row_copy_outcome(probe: &RowProbe) -> (r: Result<DbCopyOutcome, String>)
    ensures
        match r {
            Ok(DbCopyOutcome::NoDb) => !probe.db_is_file,
            Err(e) => probe.db_is_file && !probe.db_opens && e@ == "会话数据库无法打开"@,
            Ok(DbCopyOutcome::NoSessionsTable) => probe.db_is_file && probe.db_opens
                && !probe.has_sessions_table,
            Ok(DbCopyOutcome::SourceRowMissing) => probe.db_is_file && probe.db_opens
                && probe.has_sessions_table && !probe.has_source_row,
            Ok(DbCopyOutcome::Inserted) => probe.db_is_file && probe.db_opens
                && probe.has_sessions_table && probe.has_source_row,
        },
{
    if !probe.db_is_file {
        return Ok(DbCopyOutcome::NoDb);
    }
    if !probe.db_opens {
        return Err("会话数据库无法打开".to_owned());
    }
    if !probe.has_sessions_table {
        return Ok(DbCopyOutcome::NoSessionsTable);
    }
    if !probe.has_source_row {
        return Ok(DbCopyOutcome::SourceRowMissing);
    }
    Ok(DbCopyOutcome::Inserted)
}

/// The complaint about the owner of a copy's row; none where it is the target's.
pub open spec fn owner_complaint(owner: Option<Seq<char>>, target_uid: Seq<char>) -> Option<
    Seq<char>,
> {
    match owner {
        Some(o) => if o == target_uid {
            None
        } else {
            Some("会话行归属校验失败：期望 "@ + target_uid + "，实际 "@ + o)
        },
        None => Some("会话行写入后不可见，未报告成功"@),
    }
}

/// Checks a copy's row after it was written: it must be there and be the target's.
pub fn verify_session_row(owner: &Option<String>, target_uid: &str) -> (r: Result<(), String>)
    ensures
        match r {
            Ok(_) => owner_complaint(text::opt_text(*owner), target_uid@) is None,
            Err(e) => owner_complaint(text::opt_text(*owner), target_uid@) == Some(e@),
        },
{
    match owner {
        Some(o) => {
            if text::same_text(o.as_str(), target_uid) {
                return Ok(());
            }
            let mut e = text::concat3("会话行归属校验失败：期望 ", target_uid, "，实际 ");
            e.append(o.as_str());
            Err(e)
        },
        None => Err("会话行写入后不可见，未报告成功".to_owned()),
    }
}

/// What was found of the database that maps sessions to the cloud.
#[derive(Clone, Copy)]
pub struct MappingProbe {
    pub db_is_file: bool,
    pub db_opens: bool,
    pub has_table: bool,
}

/// What keeps a session from being mapped; none where it can be.
pub open spec fn mapping_obstacle(probe: MappingProbe, variant: WbVariant) -> Option<Seq<char>> {
    if !probe.db_is_file {
        Some("云端映射库 "@ + edge_sync_name(variant) + " 不存在"@)
    } else if !probe.db_opens {
        Some("云端映射库无法打开"@)
    } else if !probe.has_table {
        Some("云端映射库缺少 edge_sync_mapping 表"@)
    } else {
        None
    }
}

/// What keeps a session from being mapped to the cloud; none where it can be.
pub fn mapping_unavailable(probe: &MappingProbe, variant: WbVariant) -> (r: Option<String>)
    ensures
        text::opt_text(r) == mapping_obstacle(*probe, variant),
{
    if !probe.db_is_file {
        Some(text::concat3("云端映射库 ", edge_sync_db_name(variant), " 不存在"))
    } else if !probe.db_opens {
        Some("云端映射库无法打开".to_owned())
    } else if !probe.has_table {
        Some("云端映射库缺少 edge_sync_mapping 表".to_owned())
    } else {
        None
    }
}

pub open spec fn channel_of(uid: Seq<char>) -> Seq<char> {
    "convmsg:"@ + uid
}

/// The channel that a session of the user is mapped to.
pub fn mapping_channel(target_uid: &str) -> (r: String)
    ensures
        r@ == channel_of(target_uid@),
{
    text::concat("convmsg:", target_uid)
}

/// Whether a session is mapped to the user's channel, given the channel that was found.
pub fn mapping_row_matches(channel: &Option<String>, target_uid: &str) -> (r: bool)
    ensures
        r == (text::opt_text(*channel) == Some(channel_of(target_uid@))),
{
    match channel {
        Some(c) => text::same_text(c.as_str(), mapping_channel(target_uid).as_str()),
        None => false,
    }
}

/// The parts of the session database that are backed up.
pub fn backup_suffixes() -> (r: Vec<&'static str>)
    ensures
        r@.len() == 3,
        r@[0]@ == ""@,
        r@[1]@ == "-wal"@,
        r@[2]@ == "-shm"@,
{
    let mut r: Vec<&'static str> = Vec::new();
    r.push("");
    r.push("-wal");
    r.push("-shm");
    r
}

/// Checks a part of a backup by its size.
pub fn verify_backup(suffix: &str, source_len: u64, backup_len: u64) -> (r: Result<(), String>)
    ensures
        match r {
            Ok(_) => source_len == backup_len,
            Err(e) => source_len != backup_len && e@ == "备份 "@ + suffix@
                + " 校验失败：大小不一致，未复制"@,
        },
{
    if source_len == backup_len {
        Ok(())
    } else {
        Err(text::concat3("备份 ", suffix, " 校验失败：大小不一致，未复制"))
    }
}

// ---------------------------------------------------------------------------
// Laws
// ---------------------------------------------------------------------------

/// The copy of a row keeps what every column holds, but for the copy's id, its user, its times
/// and the mark of deletion.
pub proof fn law_copy_keeps_every_other_column(
    column: Seq<char>,
    new_id: Seq<char>,
    target_uid: Seq<char>,
    now: i64,
)
    ensures
        copied_cell(column, new_id, target_uid, now) == CellView::Keep <==> column != "id"@
            && column != "user_id"@ && column != "created_at"@ && column != "updated_at"@ && column
            != "deleted_at"@,
{
}

/// The copy has its own id and the target's user, is as old as the copying, and is not deleted.
pub proof fn law_copy_has_its_own_id_user_and_times(
    new_id: Seq<char>,
    target_uid: Seq<char>,
    now: i64,
)
    ensures
        copied_cell("id"@, new_id, target_uid, now) == CellView::Text(new_id),
        copied_cell("user_id"@, new_id, target_uid, now) == CellView::Text(target_uid),
        copied_cell("created_at"@, new_id, target_uid, now) == CellView::Integer(now),
        copied_cell("updated_at"@, new_id, target_uid, now) == CellView::Integer(now),
        copied_cell("deleted_at"@, new_id, target_uid, now) == CellView::Null,
{
    lemma_column_names();
}

/// The name that the user gave is shown wherever it is not blank, else the title where that is
/// not blank; both without white space around them.
pub proof fn law_given_name_outweighs_the_title(
    title: Option<Seq<char>>,
    custom: Option<Seq<char>>,
    name: Seq<char>,
)
    requires
        text::trim(name).len() > 0,
    ensures
        display_title(title, Some(name)) == text::trim(name),
        custom is None || text::trim(custom->0).len() == 0 ==> display_title(Some(name), custom)
            == text::trim(name),
        (custom is None || text::trim(custom->0).len() == 0) && (title is None || text::trim(
            title->0,
        ).len() == 0) ==> display_title(title, custom) == "(无标题)"@,
{
}

/// A workspace is bound to its account by its own name alone, in capitals or not: neither the
/// directory that it lies in nor slashes behind it matter.
pub proof fn law_claw_goes_by_the_name(
    dir: Seq<char>,
    slash: char,
    name: Seq<char>,
    slashes: Seq<char>,
)
    requires
        slash == '/' || slash == '\\',
        name.len() > 0,
        forall|i: int| 0 <= i < name.len() ==> #[trigger] name[i] != '/' && name[i] != '\\',
        forall|i: int|
            0 <= i < slashes.len() ==> #[trigger] slashes[i] == '/' || slashes[i] == '\\',
        text::trim(dir.push(slash) + name + slashes) == dir.push(slash) + name + slashes,
        text::trim(name + slashes) == name + slashes,
    ensures
        is_claw(dir.push(slash) + name + slashes) <==> name.len() == 4 && (name[0] == 'c' || name[0]
            == 'C') && (name[1] == 'l' || name[1] == 'L') && (name[2] == 'a' || name[2] == 'A') && (
        name[3] == 'w' || name[3] == 'W'),
        is_claw(name + slashes) == is_claw(dir.push(slash) + name + slashes),
{
    let base = dir.push(slash) + name;
    lemma_end_slashes(base, slashes);
    lemma_end_slashes(name, slashes);
    lemma_name_behind(dir.push(slash), name);
    lemma_name_behind(seq![], name);
    assert(seq![] + name =~= name);
    lemma_claw_letters(name);
}

/// White space around a workspace's path does not matter.
pub proof fn law_claw_passes_over_white_space(cwd: Seq<char>)
    ensures
        is_claw(text::trim(cwd)) == is_claw(cwd),
{
    text::lemma_trimmed(cwd);
}

proof fn lemma_end_slashes(base: Seq<char>, slashes: Seq<char>)
    requires
        base.len() > 0,
        !is_slash(base.last()),
        forall|i: int|
            0 <= i < slashes.len() ==> #[trigger] slashes[i] == '/' || slashes[i] == '\\',
    ensures
        without_end_slashes(base + slashes) == base,
    decreases slashes.len(),
{
    if slashes.len() == 0 {
        assert(base + slashes =~= base);
    } else {
        assert((base + slashes).drop_last() =~= base + slashes.drop_last());
        assert((base + slashes).last() == slashes.last());
        lemma_end_slashes(base, slashes.drop_last());
    }
}

proof fn lemma_name_behind(before: Seq<char>, name: Seq<char>)
    requires
        before.len() == 0 || is_slash(before.last()),
        forall|i: int| 0 <= i < name.len() ==> #[trigger] name[i] != '/' && name[i] != '\\',
    ensures
        last_name(before + name) == name,
    decreases name.len(),
{
    if name.len() == 0 {
        assert(before + name =~= before);
    } else {
        assert((before + name).drop_last() =~= before + name.drop_last());
        assert((before + name).last() == name.last());
        lemma_name_behind(before, name.drop_last());
        assert(name.drop_last().push(name.last()) =~= name);
    }
}

proof fn lemma_claw_letters(name: Seq<char>)
    ensures
        name.map_values(|c: char| ascii_lower(c)) == "claw"@ <==> name.len() == 4 && (name[0] == 'c'
            || name[0] == 'C') && (name[1] == 'l' || name[1] == 'L') && (name[2] == 'a' || name[2]
            == 'A') && (name[3] == 'w' || name[3] == 'W'),
{
    reveal_strlit("claw");
    let low = name.map_values(|c: char| ascii_lower(c));
    assert("claw"@.len() == 4 && low.len() == name.len());
    assert("claw"@[0] == 'c' && "claw"@[1] == 'l' && "claw"@[2] == 'a' && "claw"@[3] == 'w');
    if name.len() == 4 {
        lemma_ascii_lower(name[0]);
        lemma_ascii_lower(name[1]);
        lemma_ascii_lower(name[2]);
        lemma_ascii_lower(name[3]);
        assert(low[0] == ascii_lower(name[0]));
        assert(low[1] == ascii_lower(name[1]));
        assert(low[2] == ascii_lower(name[2]));
        assert(low[3] == ascii_lower(name[3]));
        if low[0] == 'c' && low[1] == 'l' && low[2] == 'a' && low[3] == 'w' {
            assert(low =~= "claw"@);
        }
    }
}

proof fn lemma_ascii_lower(c: char)
    ensures
        ascii_lower(c) == 'c' <==> c == 'c' || c == 'C',
        ascii_lower(c) == 'l' <==> c == 'l' || c == 'L',
        ascii_lower(c) == 'a' <==> c == 'a' || c == 'A',
        ascii_lower(c) == 'w' <==> c == 'w' || c == 'W',
{
    if 'A' <= c <= 'Z' {
        let n = (c as u32 + 32) as u32;
        assert(n as char as u32 == n);
    }
}

/// The sessions of one list and of another are shown one list after the other: what is shown of a
/// session does not depend on the rest.
pub proof fn law_each_session_is_shown_by_itself(a: Seq<SessionRow>, b: Seq<SessionRow>)
    ensures
        sessions_json(a + b) == sessions_json(a) + sessions_json(b),
    decreases b.len(),
{
    if b.len() == 0 {
        assert(a + b =~= a);
        assert(sessions_json(a) + sessions_json(b) =~= sessions_json(a));
    } else {
        assert((a + b).drop_last() =~= a + b.drop_last());
        assert((a + b).last() == b.last());
        law_each_session_is_shown_by_itself(a, b.drop_last());
        assert(sessions_json(a) + sessions_json(b) =~= if is_claw(or_empty(b.last().cwd)) {
            sessions_json(a) + sessions_json(b.drop_last())
        } else {
            (sessions_json(a) + sessions_json(b.drop_last())).push(session_json(b.last()))
        });
    }
}

/// A session is shown unless its workspace is bound to its account, with its id, its name, its
/// workspace, its time, and whether it has a body and is a playground.
pub proof fn law_session_is_shown_as_it_is(row: SessionRow)
    ensures
        row.cwd is Some && is_claw(row.cwd->0@) ==> sessions_json(seq![row]) == Seq::<
            JsonView,
        >::empty(),
        row.cwd is None || !is_claw(row.cwd->0@) ==> {
            let shown = sessions_json(seq![row]);
            &&& shown.len() == 1
            &&& json::field(shown[0], "id"@) == Some(
                JsonView::Text(match row.id { Some(t) => t@, None => ""@ }),
            )
            &&& json::field(shown[0], "title"@) == Some(
                JsonView::Text(
                    display_title(text::opt_text(row.title), text::opt_text(row.custom_title)),
                ),
            )
            &&& json::field(shown[0], "cwd"@) == Some(
                JsonView::Text(match row.cwd { Some(t) => t@, None => ""@ }),
            )
            &&& json::field(shown[0], "updatedAt"@) == Some(
                match row.updated_at {
                    Some(n) => if n < 0 {
                        JsonView::Negative(n)
                    } else {
                        JsonView::Unsigned(n as u64)
                    },
                    None => JsonView::Unsigned(0),
                },
            )
            &&& json::field(shown[0], "hasHistory"@) == Some(JsonView::Bool(row.has_history))
            &&& json::field(shown[0], "isPlayground"@) == Some(
                JsonView::Bool(match row.is_playground { Some(n) => n != 0, None => false }),
            )
        },
{
    lemma_column_names();
    reveal_strlit("");
    reveal_strlit("claw");
    assert(""@ =~= Seq::<char>::empty());
    assert(seq![row].drop_last() =~= Seq::<SessionRow>::empty());
    assert(sessions_json(Seq::<SessionRow>::empty()) =~= Seq::<JsonView>::empty());
    reveal_with_fuel(sessions_json, 2);
    if row.cwd is None {
        assert(text::trim(or_empty(row.cwd)) =~= Seq::<char>::empty());
        assert(without_end_slashes(Seq::<char>::empty()) =~= Seq::<char>::empty());
        assert(last_name(Seq::<char>::empty()) =~= Seq::<char>::empty());
        assert(Seq::<char>::empty().map_values(|c: char| ascii_lower(c)).len() == 0);
        assert("claw"@.len() == 4);
    }
}

/// The sessions that are listed are those of the asked user that are not deleted, the latest
/// first; a database without the column of given names, or of playgrounds, is asked for neither.
pub proof fn law_listed_sessions_are_the_users_own(has_custom: bool, has_playground: bool)
    ensures
        ({
            let end =
                " FROM sessions WHERE user_id = ?1 AND deleted_at IS NULL ORDER BY updated_at DESC"@;
            let query = list_query(has_custom, has_playground);
            let names = query.take(query.len() - end.len());
            &&& end.len() <= query.len()
            &&& query.skip(query.len() - end.len()) == end
            &&& has_custom && has_playground ==> names
                == "SELECT id, cwd, title, custom_title, updated_at, is_playground"@
            &&& has_custom && !has_playground ==> names
                == "SELECT id, cwd, title, custom_title, updated_at, 0"@
            &&& !has_custom && has_playground ==> names
                == "SELECT id, cwd, title, NULL, updated_at, is_playground"@
            &&& !has_custom && !has_playground ==> names
                == "SELECT id, cwd, title, NULL, updated_at, 0"@
        }),
{
    let end = " FROM sessions WHERE user_id = ?1 AND deleted_at IS NULL ORDER BY updated_at DESC"@;
    let query = list_query(has_custom, has_playground);
    let start = "SELECT id, cwd, title, "@ + (if has_custom {
        "custom_title"@
    } else {
        "NULL"@
    }) + ", updated_at, "@ + (if has_playground {
        "is_playground"@
    } else {
        "0"@
    });
    assert(query =~= start + end);
    assert(query.skip(query.len() - end.len()) =~= end);
    assert(query.take(query.len() - end.len()) =~= start);
    reveal_strlit("SELECT id, cwd, title, ");
    reveal_strlit("custom_title");
    reveal_strlit("NULL");
    reveal_strlit(", updated_at, ");
    reveal_strlit("is_playground");
    reveal_strlit("0");
    reveal_strlit("SELECT id, cwd, title, custom_title, updated_at, is_playground");
    reveal_strlit("SELECT id, cwd, title, custom_title, updated_at, 0");
    reveal_strlit("SELECT id, cwd, title, NULL, updated_at, is_playground");
    reveal_strlit("SELECT id, cwd, title, NULL, updated_at, 0");
    if has_custom && has_playground {
        assert(start =~= "SELECT id, cwd, title, custom_title, updated_at, is_playground"@);
    } else if has_custom {
        assert(start =~= "SELECT id, cwd, title, custom_title, updated_at, 0"@);
    } else if has_playground {
        assert(start =~= "SELECT id, cwd, title, NULL, updated_at, is_playground"@);
    } else {
        assert(start =~= "SELECT id, cwd, title, NULL, updated_at, 0"@);
    }
}

/// A copy's row passes only where its owner is the target. A row of another owner is told of with
/// both users, one that is not there as such.
pub proof fn law_only_the_target_may_own_a_copy(owner: Option<Seq<char>>, target_uid: Seq<char>)
    ensures
        owner_complaint(owner, target_uid) is None <==> owner == Some(target_uid),
        owner is None ==> owner_complaint(owner, target_uid) == Some(
            "会话行写入后不可见，未报告成功"@,
        ),
        owner is Some && owner->0 != target_uid ==> owner_complaint(owner, target_uid) == Some(
            "会话行归属校验失败：期望 "@ + target_uid + "，实际 "@ + owner->0,
        ),
{
}

/// A session can be mapped only where the database is there, opens and has its table; else the
/// first of these that fails is told.
pub proof fn law_mapping_needs_its_database(probe: MappingProbe, variant: WbVariant)
    ensures
        mapping_obstacle(probe, variant) is None <==> probe.db_is_file && probe.db_opens
            && probe.has_table,
        !probe.db_is_file ==> mapping_obstacle(probe, variant) == Some(
            "云端映射库 "@ + match variant {
                WbVariant::Cn => "edge-sync-mapping-v2.db"@,
                WbVariant::Ai => "edge-sync-mapping-v4.db"@,
            } + " 不存在"@,
        ),
        probe.db_is_file && !probe.db_opens ==> mapping_obstacle(probe, variant) == Some(
            "云端映射库无法打开"@,
        ),
        probe.db_is_file && probe.db_opens && !probe.has_table ==> mapping_obstacle(probe, variant)
            == Some("云端映射库缺少 edge_sync_mapping 表"@),
{
}

/// Each user has a channel of their own, named by them.
pub proof fn law_each_user_has_a_channel(a: Seq<char>, b: Seq<char>)
    ensures
        channel_of(a) == channel_of(b) ==> a == b,
        channel_of(a).len() == 8 + a.len(),
        channel_of(a).take(8) == "convmsg:"@,
        channel_of(a).skip(8) == a,
{
    reveal_strlit("convmsg:");
    assert("convmsg:"@.len() == 8);
    assert(channel_of(a).take(8) =~= "convmsg:"@);
    assert(channel_of(a).skip(8) =~= a);
    assert(channel_of(b).skip(8) =~= b);
}

/// A login names its user by the text under `uid` in `account`, and in no other way.
pub proof fn law_login_names_its_user(
    t: Seq<char>,
    root: Map<Seq<char>, JsonView>,
    account: Map<Seq<char>, JsonView>,
    uid: JsonView,
)
    requires
        json::parsed(t) == Some(JsonView::Object(root)),
    ensures
        root.contains_pair("account"@, JsonView::Object(account)) && account.contains_pair(
            "uid"@,
            uid,
        ) ==> login_user(Some(t)) == match uid {
            JsonView::Text(u) => Some(u),
            _ => None,
        },
        !root.contains_key("account"@) ==> login_user(Some(t)) is None,
        root.contains_pair("account"@, JsonView::Object(account)) && !account.contains_key("uid"@)
            ==> login_user(Some(t)) is None,
        login_user(None) is None,
{
}

/// The statement for a row has one place for each column.
pub proof fn law_row_has_a_place_for_each_column(columns: Seq<Seq<char>>)
    requires
        columns.len() > 0,
    ensures
        insert_sql(columns) == "INSERT INTO sessions ("@ + text::joined(columns, ", "@)
            + ") VALUES ("@ + text::joined(Seq::new(columns.len(), |i: int| "?"@), ", "@) + ")"@,
{
    assert(columns.map_values(|c: Seq<char>| "?"@) =~= Seq::new(columns.len(), |i: int| "?"@));
}

/// The names of columns and of a session's fields differ from each other.
proof fn lemma_column_names()
    ensures
        "id"@ != "user_id"@,
        "id"@ != "created_at"@,
        "id"@ != "updated_at"@,
        "id"@ != "deleted_at"@,
        "user_id"@ != "created_at"@,
        "user_id"@ != "updated_at"@,
        "user_id"@ != "deleted_at"@,
        "created_at"@ != "updated_at"@,
        "created_at"@ != "deleted_at"@,
        "updated_at"@ != "deleted_at"@,
        "id"@ != "title"@,
        "id"@ != "cwd"@,
        "id"@ != "updatedAt"@,
        "id"@ != "hasHistory"@,
        "id"@ != "isPlayground"@,
        "title"@ != "cwd"@,
        "title"@ != "updatedAt"@,
        "title"@ != "hasHistory"@,
        "title"@ != "isPlayground"@,
        "cwd"@ != "updatedAt"@,
        "cwd"@ != "hasHistory"@,
        "cwd"@ != "isPlayground"@,
        "updatedAt"@ != "hasHistory"@,
        "updatedAt"@ != "isPlayground"@,
        "hasHistory"@ != "isPlayground"@,
{
    reveal_strlit("id");
    reveal_strlit("user_id");
    reveal_strlit("created_at");
    reveal_strlit("updated_at");
    reveal_strlit("deleted_at");
    reveal_strlit("title");
    reveal_strlit("cwd");
    reveal_strlit("updatedAt");
    reveal_strlit("hasHistory");
    reveal_strlit("isPlayground");
    assert("id"@.len() == 2);
    assert("user_id"@.len() == 7);
    assert("created_at"@.len() == 10);
    assert("updated_at"@.len() == 10);
    assert("deleted_at"@.len() == 10);
    assert("title"@.len() == 5);
    assert("cwd"@.len() == 3);
    assert("updatedAt"@.len() == 9);
    assert("hasHistory"@.len() == 10);
    assert("isPlayground"@.len() == 12);
    assert("created_at"@[0] != "updated_at"@[0]);
    assert("created_at"@[0] != "deleted_at"@[0]);
    assert("updated_at"@[0] != "deleted_at"@[0]);
}

/// A row is bound to its account by its workspace alone: by what its column `cwd` holds, whatever
/// the other columns hold.
pub proof fn law_only_the_workspace_binds_a_row(
    columns: Seq<Seq<char>>,
    values: Seq<Option<String>>,
    k: int,
    cwd: String,
)
    requires
        values.len() == columns.len(),
    ensures
        0 <= k < columns.len() && columns[k] == "cwd"@ && values[k] == Some(cwd) && is_claw(cwd@)
            ==> row_is_claw(columns, values),
        (forall|i: int|
            0 <= i < columns.len() && #[trigger] columns[i] == "cwd"@ ==> values[i] is None
                || !is_claw(values[i]->0@)) ==> !row_is_claw(columns, values),
{
}

/// Each edition has its own login, its own data and its own database of mappings.
pub proof fn law_editions_are_kept_apart(logins: Logins, a: WbVariant, b: WbVariant)
    ensures
        logins.of(WbVariant::Cn) == text::opt_text(logins.cn),
        logins.of(WbVariant::Ai) == text::opt_text(logins.ai),
        a != b ==> a.name() != b.name() && a.data_dir() != b.data_dir() && edge_sync_name(a)
            != edge_sync_name(b),
        edge_sync_name(a) == match a {
            WbVariant::Cn => "edge-sync-mapping-v2.db"@,
            WbVariant::Ai => "edge-sync-mapping-v4.db"@,
        },
        a.data_dir() == match a {
            WbVariant::Cn => ".workbuddy"@,
            WbVariant::Ai => ".workbuddy-ai"@,
        },
{
    reveal_strlit("cn");
    reveal_strlit("ai");
    reveal_strlit(".workbuddy");
    reveal_strlit(".workbuddy-ai");
    reveal_strlit("edge-sync-mapping-v2.db");
    reveal_strlit("edge-sync-mapping-v4.db");
    assert("cn"@[0] != "ai"@[0]);
    assert(".workbuddy"@.len() != ".workbuddy-ai"@.len());
    assert("edge-sync-mapping-v2.db"@[19] != "edge-sync-mapping-v4.db"@[19]);
}

} // verus!
