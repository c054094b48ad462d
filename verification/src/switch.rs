//! Switching accounts: what is done in which order, what stops it, and what is reported.
//!
//! The client is closed before sessions are written, and started only after the login was
//! written. Sessions that cannot be copied do not keep the account from being switched; what
//! cannot be recovered safely does.

use vstd::prelude::*;

use crate::json;
use crate::json::Json;
use crate::json::JsonView;
use crate::session_link::issue_views;
use crate::session_link::IssueView;
use crate::session_link::RecoveryReport;
use crate::session_link::ReportView;
use crate::session_link::LOCK_BUSY_MESSAGE_PREFIX;
use crate::session_link::LOCK_UNAVAILABLE_MESSAGE_PREFIX;
use crate::text;
use crate::variant::WbVariant;

verus! {

/// The answer to a request to copy sessions without a restart.
pub const COPY_NEEDS_RESTART: &'static str = "本次切换未重启 WorkBuddy（restart=false），已拒绝会话复制请求；如需复制请勾选重启切换";

/// The answer to a request to share all sessions.
pub const SHARE_UNSUPPORTED: &'static str = "share_sessions 兼容路径暂未在 Rust 版实现";

/// The step that is due: what is to be looked at or done next, and reported back as an event.
#[derive(Clone, Copy, PartialEq, Eq, Structural, Debug)]
pub enum SwitchStage {
    /// Find the account.
    FindAccount,
    /// Back the login up.
    BackupLogin,
    /// Close the client.
    Close,
    /// Bring copies of sessions to an end that were broken off.
    Recover,
    /// Copy the sessions that were asked for.
    CopySessions,
    /// Write the login.
    WriteLogin,
    /// Start the client.
    Launch,
    /// Nothing.
    Finished,
}

/// What is shown of the account that is switched to, and its edition.
pub struct SwitchAccount {
    pub display_name: String,
    pub variant: WbVariant,
}

/// What was found, or how a step ended.
pub enum SwitchEvent {
    Account(Option<SwitchAccount>),
    /// The path of the backup, where one was made.
    Backup(Option<String>),
    Recovered(Result<RecoveryReport, String>),
    Copied(Result<Json, String>),
    Done(Result<(), String>),
}

#[verifier::ext_equal]
pub enum SwitchEventView {
    Account(Option<(Seq<char>, WbVariant)>),
    Backup(Option<Seq<char>>),
    Recovered(Result<ReportView, Seq<char>>),
    Copied(Result<JsonView, Seq<char>>),
    Done(Result<(), Seq<char>>),
}

pub open spec fn opt_account(a: Option<SwitchAccount>) -> Option<(Seq<char>, WbVariant)> {
    match a {
        Some(x) => Some((x.display_name@, x.variant)),
        None => None,
    }
}

impl SwitchEvent {
    pub open spec fn view(&self) -> SwitchEventView {
        match self {
            SwitchEvent::Account(a) => SwitchEventView::Account(opt_account(*a)),
            SwitchEvent::Backup(b) => SwitchEventView::Backup(text::opt_text(*b)),
            SwitchEvent::Recovered(r) => SwitchEventView::Recovered(
                match r {
                    Ok(x) => Ok(x@),
                    Err(e) => Err(e@),
                },
            ),
            SwitchEvent::Copied(r) => SwitchEventView::Copied(
                match r {
                    Ok(x) => Ok(x@),
                    Err(e) => Err(e@),
                },
            ),
            SwitchEvent::Done(r) => SwitchEventView::Done(
                match r {
                    Ok(_) => Ok(()),
                    Err(e) => Err(e@),
                },
            ),
        }
    }
}

/// A switch to an account.
pub struct Switch {
    pub account_id: String,
    /// The client is closed and started again.
    pub restart: bool,
    pub share_sessions: bool,
    /// There are sessions to copy.
    pub copy_sessions: bool,
    pub account: Option<SwitchAccount>,
    pub backup: Option<String>,
    pub copy_report: Option<Json>,
    pub recovery_report: Option<Json>,
    pub stage: SwitchStage,
    pub result: Option<Result<Json, String>>,
}

#[verifier::ext_equal]
pub struct SwitchView {
    pub account_id: Seq<char>,
    pub restart: bool,
    pub share_sessions: bool,
    pub copy_sessions: bool,
    pub account: Option<(Seq<char>, WbVariant)>,
    pub backup: Option<Seq<char>>,
    pub copy_report: Option<JsonView>,
    pub recovery_report: Option<JsonView>,
    pub stage: SwitchStage,
    pub result: Option<Result<JsonView, Seq<char>>>,
}

pub open spec fn opt_json(j: Option<Json>) -> Option<JsonView> {
    match j {
        Some(x) => Some(x@),
        None => None,
    }
}

// ---------------------------------------------------------------------------
// What is reported
// ---------------------------------------------------------------------------

/// How a complaint alone is shown.
pub open spec fn complaint_json(error: Seq<char>) -> JsonView {
    JsonView::Object(map!["error"@ => JsonView::Text(error)])
}

/// How an issue is shown.
pub open spec fn issue_json(i: IssueView) -> JsonView {
    JsonView::Object(
        map![
            "operationId"@ => JsonView::Text(i.operation_id),
            "reason"@ => JsonView::Text(i.reason),
            "retryable"@ => JsonView::Bool(i.retryable)
        ],
    )
}

/// How the recovery is shown.
pub open spec fn recovery_json(report: ReportView) -> JsonView {
    JsonView::Object(
        map![
            "recovered"@ => JsonView::Unsigned(report.recovered.len() as u64),
            "abandoned"@ => JsonView::Unsigned(report.abandoned.len() as u64),
            "needsRecovery"@ => JsonView::Array(
                report.needs_recovery.map_values(|i: IssueView| issue_json(i)),
            )
        ],
    )
}

/// There was something to recover.
pub open spec fn is_worth_reporting(report: ReportView) -> bool {
    report.recovered.len() > 0 || report.abandoned.len() > 0 || report.needs_recovery.len() > 0
}

/// An issue that another try will not mend.
pub open spec fn is_blocking(issues: Seq<IssueView>) -> bool {
    exists|i: int| 0 <= i < issues.len() && !(#[trigger] issues[i]).retryable
}

/// The switch as it is reported.
pub open spec fn switch_json(v: SwitchView) -> JsonView {
    let base = map![
        "ok"@ => JsonView::Bool(true),
        "account"@ => JsonView::Text(match v.account { Some(a) => a.0, None => seq![] }),
        "variant"@ => JsonView::Text(match v.account { Some(a) => a.1.name(), None => seq![] }),
        "backup"@ => json::opt_text_view(v.backup)
    ];
    let copy = match v.copy_report {
        Some(c) => base.insert("sessionCopy"@, c),
        None => base,
    };
    let share = if v.restart && v.share_sessions {
        copy.insert("sessionShare"@, complaint_json(SHARE_UNSUPPORTED@))
    } else {
        copy
    };
    JsonView::Object(
        match v.recovery_report {
            Some(r) => share.insert("sessionRecovery"@, r),
            None => share,
        },
    )
}

fn complaint(error: &str) -> (r: Json)
    ensures
        r@ == complaint_json(error@),
{
    let r = Json::Object(json::with_field(Vec::new(), "error", json::text_value(error)));
    assert(r@ =~= complaint_json(error@));
    r
}

fn recovery_value(report: &RecoveryReport) -> (r: Json)
    ensures
        r@ == recovery_json(report@),
{
    let ghost views = issue_views(report.needs_recovery@);
    let mut issues: Vec<Json> = Vec::new();
    let mut i: usize = 0;
    while i < report.needs_recovery.len()
        invariant
            i <= report.needs_recovery@.len(),
            views == issue_views(report.needs_recovery@),
            json::item_views(issues@) == views.take(i as int).map_values(
                |i: IssueView| issue_json(i),
            ),
        decreases report.needs_recovery@.len() - i,
    {
        let ghost before = issues@;
        let issue = &report.needs_recovery[i];
        assert(views[i as int] == issue@);
        let fields = json::with_field(
            Vec::new(),
            "operationId",
            json::text_value(issue.operation_id.as_str()),
        );
        let fields = json::with_field(fields, "reason", json::text_value(issue.reason.as_str()));
        let fields = json::with_field(fields, "retryable", Json::Bool(issue.retryable));
        let value = Json::Object(fields);
        assert(value@ =~= issue_json(issue@));
        issues.push(value);
        assert(issues@.drop_last() =~= before);
        assert(json::item_views(issues@) =~= views.take(i + 1).map_values(
            |i: IssueView| issue_json(i),
        ));
        i += 1;
    }
    assert(views.take(report.needs_recovery@.len() as int) =~= views);
    let fields = json::with_field(
        Vec::new(),
        "recovered",
        Json::Unsigned(report.recovered.len() as u64),
    );
    let fields = json::with_field(
        fields,
        "abandoned",
        Json::Unsigned(report.abandoned.len() as u64),
    );
    let fields = json::with_field(fields, "needsRecovery", Json::Array(issues));
    let r = Json::Object(fields);
    assert(r@ =~= recovery_json(report@));
    r
}

/// The reasons of the issues.
pub open spec fn reasons(issues: Seq<IssueView>) -> Seq<Seq<char>> {
    issues.map_values(|i: IssueView| i.reason)
}

fn joined_reasons(report: &RecoveryReport) -> (r: String)
    ensures
        r@ == text::joined(reasons(report@.needs_recovery), "；"@),
{
    let mut list: Vec<String> = Vec::new();
    let mut i: usize = 0;
    while i < report.needs_recovery.len()
        invariant
            i <= report.needs_recovery@.len(),
            list@.len() == i,
            forall|j: int|
                0 <= j < i ==> (#[trigger] list@[j])@ == report.needs_recovery@[j].reason@,
        decreases report.needs_recovery@.len() - i,
    {
        list.push(report.needs_recovery[i].reason.clone());
        i += 1;
    }
    assert(text::texts(list@) =~= reasons(report@.needs_recovery));
    text::join_texts(&list, "；")
}

/// Whether the recovery left an issue that another try will not mend.
pub fn recovery_blocks(report: &RecoveryReport) -> (r: bool)
    ensures
        r == is_blocking(report@.needs_recovery),
{
    let ghost views = issue_views(report.needs_recovery@);
    let mut i: usize = 0;
    while i < report.needs_recovery.len()
        invariant
            i <= report.needs_recovery@.len(),
            views == issue_views(report.needs_recovery@),
            forall|j: int| 0 <= j < i ==> (#[trigger] views[j]).retryable,
        decreases report.needs_recovery@.len() - i,
    {
        assert(views[i as int] == report.needs_recovery@[i as int]@);
        if !report.needs_recovery[i].retryable {
            assert(!report@.needs_recovery[i as int].retryable);
            return true;
        }
        i += 1;
    }
    false
}

/// The complaint is about the lock for operations on sessions.
pub open spec fn about_lock(error: Seq<char>) -> bool {
    LOCK_BUSY_MESSAGE_PREFIX@.is_prefix_of(error)
        || LOCK_UNAVAILABLE_MESSAGE_PREFIX@.is_prefix_of(error)
}

/// Whether the complaint is about the lock for operations on sessions.
pub fn is_lock_failure(error: &str) -> (r: bool)
    ensures
        r == about_lock(error@),
{
    text::begins_with(error, LOCK_BUSY_MESSAGE_PREFIX) || text::begins_with(
        error,
        LOCK_UNAVAILABLE_MESSAGE_PREFIX,
    )
}

// ---------------------------------------------------------------------------
// What follows what
// ---------------------------------------------------------------------------

/// The switch as it is asked for.
pub open spec fn asked_for(
    account_id: Seq<char>,
    restart: bool,
    share_sessions: bool,
    copy_sessions: bool,
) -> SwitchView {
    SwitchView {
        account_id,
        restart,
        share_sessions,
        copy_sessions,
        account: None,
        backup: None,
        copy_report: None,
        recovery_report: None,
        stage: SwitchStage::FindAccount,
        result: None,
    }
}

pub open spec fn at(v: SwitchView, stage: SwitchStage) -> SwitchView {
    SwitchView { stage, ..v }
}

/// The switch ends here, with a complaint.
pub open spec fn stopped(v: SwitchView, error: Seq<char>) -> SwitchView {
    SwitchView { stage: SwitchStage::Finished, result: Some(Err(error)), ..v }
}

/// The switch is done.
pub open spec fn switched(v: SwitchView) -> SwitchView {
    SwitchView { stage: SwitchStage::Finished, result: Some(Ok(switch_json(v))), ..v }
}

/// After the login was backed up: without a restart no session is written, and a request to copy
/// some is answered with a complaint.
pub open spec fn backed_up(v: SwitchView, backup: Option<Seq<char>>) -> SwitchView {
    if v.restart {
        SwitchView { backup, stage: SwitchStage::Close, ..v }
    } else {
        SwitchView {
            backup,
            copy_report: if v.copy_sessions {
                Some(complaint_json(COPY_NEEDS_RESTART@))
            } else {
                v.copy_report
            },
            stage: SwitchStage::WriteLogin,
            ..v
        }
    }
}

/// After the recovery: what another try will not mend stops the switch.
pub open spec fn recovered(v: SwitchView, r: Result<ReportView, Seq<char>>) -> SwitchView {
    match r {
        Err(e) => stopped(
            v,
            "无法恢复未完成的会话写入（"@ + e
                + "），已暂停切换与启动 WorkBuddy；请稍后重试"@,
        ),
        Ok(report) => {
            let w = SwitchView {
                recovery_report: if is_worth_reporting(report) {
                    Some(recovery_json(report))
                } else {
                    v.recovery_report
                },
                ..v
            };
            if is_blocking(report.needs_recovery) {
                stopped(
                    w,
                    "检测到无法安全恢复的会话写入（"@ + text::joined(
                        reasons(report.needs_recovery),
                        "；"@,
                    ) + "），已暂停切换与启动 WorkBuddy；请先处理该会话后再试"@,
                )
            } else if v.copy_sessions {
                at(w, SwitchStage::CopySessions)
            } else {
                at(w, SwitchStage::WriteLogin)
            }
        },
    }
}

/// After the sessions were copied: a complaint about the lock stops the switch, since another may
/// be writing sessions; any other is reported.
pub open spec fn copied(v: SwitchView, r: Result<JsonView, Seq<char>>) -> SwitchView {
    match r {
        Ok(report) => SwitchView {
            copy_report: Some(report),
            stage: SwitchStage::WriteLogin,
            ..v
        },
        Err(e) => if about_lock(e) {
            stopped(
                v,
                "无法独占会话操作（"@ + e
                    + "），已暂停切换与启动 WorkBuddy；请稍后重试"@,
            )
        } else {
            SwitchView {
                copy_report: Some(complaint_json(e)),
                stage: SwitchStage::WriteLogin,
                ..v
            }
        },
    }
}

/// What follows an event. An event that does not belong to the step that is due changes nothing.
pub open spec fn switch_next(v: SwitchView, e: SwitchEventView) -> SwitchView {
    match (v.stage, e) {
        (SwitchStage::FindAccount, SwitchEventView::Account(account)) => match account {
            Some(a) => SwitchView { account: Some(a), stage: SwitchStage::BackupLogin, ..v },
            None => stopped(v, "账号不存在: "@ + v.account_id),
        },
        (SwitchStage::BackupLogin, SwitchEventView::Backup(backup)) => backed_up(v, backup),
        (SwitchStage::Close, SwitchEventView::Done(r)) => match r {
            Ok(_) => at(v, SwitchStage::Recover),
            Err(e) => stopped(v, e),
        },
        (SwitchStage::Recover, SwitchEventView::Recovered(r)) => recovered(v, r),
        (SwitchStage::CopySessions, SwitchEventView::Copied(r)) => copied(v, r),
        (SwitchStage::WriteLogin, SwitchEventView::Done(r)) => match r {
            Ok(_) => if v.restart {
                at(v, SwitchStage::Launch)
            } else {
                switched(v)
            },
            Err(e) => stopped(v, e),
        },
        (SwitchStage::Launch, SwitchEventView::Done(r)) => match r {
            Ok(_) => switched(v),
            Err(e) => stopped(v, e),
        },
        _ => v,
    }
}

/// What the user is told when the stage is reached.
pub open spec fn told(v: SwitchView) -> Option<Seq<char>> {
    match v.stage {
        SwitchStage::FindAccount => Some("开始切换账号…"@),
        SwitchStage::Close => Some("正在关闭 WorkBuddy…"@),
        SwitchStage::CopySessions => Some("正在复制会话到目标账号…"@),
        SwitchStage::WriteLogin => Some("正在写入认证文件…"@),
        SwitchStage::Launch => Some("正在启动 WorkBuddy…"@),
        SwitchStage::Finished => if v.result matches Some(Ok(_)) {
            Some("切换完成"@)
        } else {
            None
        },
        SwitchStage::BackupLogin | SwitchStage::Recover => None,
    }
}

impl Switch {
    pub open spec fn view(&self) -> SwitchView {
        SwitchView {
            account_id: self.account_id@,
            restart: self.restart,
            share_sessions: self.share_sessions,
            copy_sessions: self.copy_sessions,
            account: opt_account(self.account),
            backup: text::opt_text(self.backup),
            copy_report: opt_json(self.copy_report),
            recovery_report: opt_json(self.recovery_report),
            stage: self.stage,
            result: crate::copy_request::opt_report(self.result),
        }
    }

    /// A switch to the account.
    pub fn new(account_id: &str, restart: bool, share_sessions: bool, copy_sessions: bool) -> (r:
        Switch)
        ensures
            r@ == asked_for(account_id@, restart, share_sessions, copy_sessions),
    {
        Switch {
            account_id: account_id.to_owned(),
            restart,
            share_sessions,
            copy_sessions,
            account: None,
            backup: None,
            copy_report: None,
            recovery_report: None,
            stage: SwitchStage::FindAccount,
            result: None,
        }
    }

    /// What the user is told now that the stage is reached.
    pub fn progress(&self) -> (r: Option<&'static str>)
        ensures
            match r {
                Some(t) => told(self@) == Some(t@),
                None => told(self@) is None,
            },
    {
        match self.stage {
            SwitchStage::FindAccount => Some("开始切换账号…"),
            SwitchStage::Close => Some("正在关闭 WorkBuddy…"),
            SwitchStage::CopySessions => Some("正在复制会话到目标账号…"),
            SwitchStage::WriteLogin => Some("正在写入认证文件…"),
            SwitchStage::Launch => Some("正在启动 WorkBuddy…"),
            SwitchStage::Finished => match &self.result {
                Some(Ok(_)) => Some("切换完成"),
                _ => None,
            },
            SwitchStage::BackupLogin | SwitchStage::Recover => None,
        }
    }

    fn stop(&mut self, error: String)
        ensures
            final(self)@ == stopped(old(self)@, error@),
    {
        self.result = Some(Err(error));
        self.stage = SwitchStage::Finished;
    }

    fn finish(&mut self)
        ensures
            final(self)@ == switched(old(self)@),
    {
        let ghost v = self@;
        let (name, variant) = match &self.account {
            Some(a) => (a.display_name.clone(), a.variant.as_str().to_owned()),
            None => (String::new(), String::new()),
        };
        let fields = json::with_field(Vec::new(), "ok", Json::Bool(true));
        let fields = json::with_field(fields, "account", Json::Text(name));
        let fields = json::with_field(fields, "variant", Json::Text(variant));
        let mut fields = json::with_field(fields, "backup", json::optional_text(&self.backup));
        match &self.copy_report {
            Some(c) => {
                fields = json::with_field(fields, "sessionCopy", c.copy());
            },
            None => {},
        }
        if self.restart && self.share_sessions {
            fields = json::with_field(fields, "sessionShare", complaint(SHARE_UNSUPPORTED));
        }
        match &self.recovery_report {
            Some(r) => {
                fields = json::with_field(fields, "sessionRecovery", r.copy());
            },
            None => {},
        }
        let report = Json::Object(fields);
        assert(report@ =~= switch_json(v));
        self.result = Some(Ok(report));
        self.stage = SwitchStage::Finished;
    }

    fn take_backup(&mut self, backup: Option<String>)
        ensures
            final(self)@ == backed_up(old(self)@, text::opt_text(backup)),
    {
        self.backup = backup;
        if self.restart {
            self.stage = SwitchStage::Close;
        } else {
            if self.copy_sessions {
                self.copy_report = Some(complaint(COPY_NEEDS_RESTART));
            }
            self.stage = SwitchStage::WriteLogin;
        }
    }

    fn take_recovery(&mut self, r: Result<RecoveryReport, String>)
        ensures
            final(self)@ == recovered(
                old(self)@,
                match r {
                    Ok(x) => Ok(x@),
                    Err(e) => Err(e@),
                },
            ),
    {
        let report = match r {
            Ok(report) => report,
            Err(e) => {
                self.stop(
                    text::concat3(
                        "无法恢复未完成的会话写入（",
                        e.as_str(),
                        "），已暂停切换与启动 WorkBuddy；请稍后重试",
                    ),
                );
                return;
            },
        };
        if !report.is_empty() {
            self.recovery_report = Some(recovery_value(&report));
        }
        if recovery_blocks(&report) {
            let detail = joined_reasons(&report);
            self.stop(
                text::concat3(
                    "检测到无法安全恢复的会话写入（",
                    detail.as_str(),
                    "），已暂停切换与启动 WorkBuddy；请先处理该会话后再试",
                ),
            );
        } else if self.copy_sessions {
            self.stage = SwitchStage::CopySessions;
        } else {
            self.stage = SwitchStage::WriteLogin;
        }
    }

    fn take_copied(&mut self, r: Result<Json, String>)
        ensures
            final(self)@ == copied(
                old(self)@,
                match r {
                    Ok(x) => Ok(x@),
                    Err(e) => Err(e@),
                },
            ),
    {
        match r {
            Ok(report) => {
                self.copy_report = Some(report);
                self.stage = SwitchStage::WriteLogin;
            },
            Err(e) => {
                if is_lock_failure(e.as_str()) {
                    self.stop(
                        text::concat3(
                            "无法独占会话操作（",
                            e.as_str(),
                            "），已暂停切换与启动 WorkBuddy；请稍后重试",
                        ),
                    );
                } else {
                    self.copy_report = Some(complaint(e.as_str()));
                    self.stage = SwitchStage::WriteLogin;
                }
            },
        }
    }

    /// Takes in what was found or how the step ended that was due.
    pub fn step(&mut self, event: SwitchEvent)
        ensures
            final(self)@ == switch_next(old(self)@, event@),
    {
        match (self.stage, event) {
            (SwitchStage::FindAccount, SwitchEvent::Account(account)) => match account {
                Some(a) => {
                    self.account = Some(a);
                    self.stage = SwitchStage::BackupLogin;
                },
                None => {
                    let e = text::concat("账号不存在: ", self.account_id.as_str());
                    self.stop(e);
                },
            },
            (SwitchStage::BackupLogin, SwitchEvent::Backup(backup)) => {
                self.take_backup(backup);
            },
            (SwitchStage::Close, SwitchEvent::Done(r)) => match r {
                Ok(_) => {
                    self.stage = SwitchStage::Recover;
                },
                Err(e) => {
                    self.stop(e);
                },
            },
            (SwitchStage::Recover, SwitchEvent::Recovered(r)) => {
                self.take_recovery(r);
            },
            (SwitchStage::CopySessions, SwitchEvent::Copied(r)) => {
                self.take_copied(r);
            },
            (SwitchStage::WriteLogin, SwitchEvent::Done(r)) => match r {
                Ok(_) => {
                    if self.restart {
                        self.stage = SwitchStage::Launch;
                    } else {
                        self.finish();
                    }
                },
                Err(e) => {
                    self.stop(e);
                },
            },
            (SwitchStage::Launch, SwitchEvent::Done(r)) => match r {
                Ok(_) => {
                    self.finish();
                },
                Err(e) => {
                    self.stop(e);
                },
            },
            _ => {},
        }
    }
}

// ---------------------------------------------------------------------------
// Laws
// ---------------------------------------------------------------------------

/// Without a restart the client is neither closed nor started, and no session is written.
pub proof fn law_without_restart_no_session_is_written(
    v: SwitchView,
    e: SwitchEventView,
)
    requires
        !v.restart,
        v.stage == SwitchStage::FindAccount || v.stage == SwitchStage::BackupLogin || v.stage
            == SwitchStage::WriteLogin || v.stage == SwitchStage::Finished,
    ensures
        ({
            let w = switch_next(v, e);
            &&& !w.restart
            &&& w.stage == SwitchStage::FindAccount || w.stage == SwitchStage::BackupLogin
                || w.stage == SwitchStage::WriteLogin || w.stage == SwitchStage::Finished
        }),
{
}

/// With a restart the client is closed before copies are recovered, copies are recovered before
/// sessions are copied and before the login is written, and the client is started only after
/// the login was written.
pub proof fn law_switch_keeps_its_order(v: SwitchView, e: SwitchEventView)
    requires
        v.restart,
        switch_next(v, e).stage != v.stage,
    ensures
        match switch_next(v, e).stage {
            SwitchStage::FindAccount => false,
            SwitchStage::BackupLogin => v.stage == SwitchStage::FindAccount,
            SwitchStage::Close => v.stage == SwitchStage::BackupLogin,
            SwitchStage::Recover => v.stage == SwitchStage::Close && e is Done && e->Done_0 is Ok,
            SwitchStage::CopySessions => v.stage == SwitchStage::Recover,
            SwitchStage::WriteLogin => v.stage == SwitchStage::Recover || v.stage
                == SwitchStage::CopySessions,
            SwitchStage::Launch => v.stage == SwitchStage::WriteLogin && e is Done
                && e->Done_0 is Ok,
            SwitchStage::Finished => true,
        },
{
}

/// What another try will not mend stops the switch before the login is written: so do copies that
/// cannot be recovered safely, a recovery that cannot be had, and a lock that cannot be had.
pub proof fn law_unsafe_state_stops_the_switch(
    v: SwitchView,
    report: ReportView,
    error: Seq<char>,
)
    ensures
        v.stage == SwitchStage::Recover && is_blocking(report.needs_recovery) ==> {
            let w = switch_next(v, SwitchEventView::Recovered(Ok(report)));
            w.stage == SwitchStage::Finished && w.result is Some && w.result->0 is Err
        },
        v.stage == SwitchStage::Recover ==> {
            let w = switch_next(v, SwitchEventView::Recovered(Err(error)));
            w.stage == SwitchStage::Finished && w.result is Some && w.result->0 is Err
        },
        v.stage == SwitchStage::CopySessions && about_lock(error) ==> {
            let w = switch_next(v, SwitchEventView::Copied(Err(error)));
            w.stage == SwitchStage::Finished && w.result is Some && w.result->0 is Err
        },
{
}

/// Sessions that cannot be copied, and copies that another try may mend, do not keep the account
/// from being switched.
pub proof fn law_ordinary_failure_does_not_stop_the_switch(
    v: SwitchView,
    report: ReportView,
    error: Seq<char>,
)
    ensures
        v.stage == SwitchStage::CopySessions && !about_lock(error) ==> switch_next(
            v,
            SwitchEventView::Copied(Err(error)),
        ).stage == SwitchStage::WriteLogin,
        v.stage == SwitchStage::Recover && !is_blocking(report.needs_recovery) ==> {
            let w = switch_next(v, SwitchEventView::Recovered(Ok(report)));
            w.stage == SwitchStage::CopySessions || w.stage == SwitchStage::WriteLogin
        },
{
}

/// A switch succeeds only by its last step: the client is started again or, without a restart,
/// the login is written. Until then, and on every other event, nothing is reported as done.
pub proof fn law_switch_succeeds_only_at_its_last_step(v: SwitchView, e: SwitchEventView)
    ensures
        ({
            let w = switch_next(v, e);
            let last = (e matches SwitchEventView::Done(Ok(_))) && (v.stage == SwitchStage::Launch || (
            v.stage == SwitchStage::WriteLogin && !v.restart));
            &&& w.stage == SwitchStage::Finished && v.stage != SwitchStage::Finished ==> w.result
                is Some
            &&& (w.result matches Some(Ok(_))) && w.result != v.result ==> last
            &&& w.stage == SwitchStage::Finished && v.stage != SwitchStage::Finished && !last
                ==> (w.result matches Some(Err(_)))
            &&& last ==> w.stage == SwitchStage::Finished && (w.result matches Some(Ok(_)))
            &&& w.stage != SwitchStage::Finished ==> w.result == v.result
        }),
{
}

/// A copy that went through is followed by the writing of the login, and its report is kept as
/// it came; nothing else of the switch changes.
pub proof fn law_copied_sessions_are_followed_by_the_login(v: SwitchView, report: JsonView)
    requires
        v.stage == SwitchStage::CopySessions,
    ensures
        switch_next(v, SwitchEventView::Copied(Ok(report))) == (SwitchView {
            stage: SwitchStage::WriteLogin,
            copy_report: Some(report),
            ..v
        }),
{
}

/// A copy that failed for another reason than the lock is shown with its complaint, and the login
/// is written all the same; one that failed for the lock ends the switch with its complaint.
pub proof fn law_failed_copy_is_told(v: SwitchView, error: Seq<char>)
    requires
        v.stage == SwitchStage::CopySessions,
    ensures
        ({
            let w = switch_next(v, SwitchEventView::Copied(Err(error)));
            if "另一个会话操作正在进行"@.is_prefix_of(error)
                || "无法建立会话操作互斥"@.is_prefix_of(error) {
                w == (SwitchView {
                    stage: SwitchStage::Finished,
                    result: Some(
                        Err(
                            "无法独占会话操作（"@ + error
                                + "），已暂停切换与启动 WorkBuddy；请稍后重试"@,
                        ),
                    ),
                    ..v
                })
            } else {
                &&& w == (SwitchView {
                    stage: SwitchStage::WriteLogin,
                    copy_report: w.copy_report,
                    ..v
                })
                &&& w.copy_report matches Some(c) && json::field(c, "error"@) == Some(
                    JsonView::Text(error),
                )
            }
        }),
{
}

/// The account that was found is the one that is switched to; an unknown one ends the switch with
/// a complaint that names it.
pub proof fn law_account_is_taken_as_found(v: SwitchView, account: (Seq<char>, WbVariant))
    requires
        v.stage == SwitchStage::FindAccount,
    ensures
        switch_next(v, SwitchEventView::Account(Some(account))) == (SwitchView {
            stage: SwitchStage::BackupLogin,
            account: Some(account),
            ..v
        }),
        switch_next(v, SwitchEventView::Account(None)) == (SwitchView {
            stage: SwitchStage::Finished,
            result: Some(Err("账号不存在: "@ + v.account_id)),
            ..v
        }),
{
}

/// After the backup, of which the name is kept, the client is closed where it is to be started
/// again; else the login is written, and who asked for copies is told that they need a restart.
pub proof fn law_backup_is_kept(v: SwitchView, backup: Option<Seq<char>>)
    requires
        v.stage == SwitchStage::BackupLogin,
    ensures
        ({
            let w = switch_next(v, SwitchEventView::Backup(backup));
            &&& w == (SwitchView {
                stage: if v.restart {
                    SwitchStage::Close
                } else {
                    SwitchStage::WriteLogin
                },
                backup,
                copy_report: w.copy_report,
                ..v
            })
            &&& v.restart || !v.copy_sessions ==> w.copy_report == v.copy_report
            &&& !v.restart && v.copy_sessions ==> (w.copy_report matches Some(c) && json::field(
                c,
                "error"@,
            ) == Some(JsonView::Text(COPY_NEEDS_RESTART@)))
        }),
{
}

/// A step that failed ends the switch with its own complaint; one that went through leads to the
/// next: after the client was closed comes the recovery, after the login was written the start of
/// the client where it is asked for. A step's outcome changes nothing else.
pub proof fn law_outcome_of_a_step_is_heeded(v: SwitchView, error: Seq<char>)
    requires
        v.stage == SwitchStage::Close || v.stage == SwitchStage::WriteLogin || v.stage
            == SwitchStage::Launch,
    ensures
        switch_next(v, SwitchEventView::Done(Err(error))) == (SwitchView {
            stage: SwitchStage::Finished,
            result: Some(Err(error)),
            ..v
        }),
        ({
            let w = switch_next(v, SwitchEventView::Done(Ok(())));
            &&& w == (SwitchView { stage: w.stage, result: w.result, ..v })
            &&& w.stage == match v.stage {
                SwitchStage::Close => SwitchStage::Recover,
                SwitchStage::WriteLogin => if v.restart {
                    SwitchStage::Launch
                } else {
                    SwitchStage::Finished
                },
                _ => SwitchStage::Finished,
            }
        }),
{
}

/// A recovery that leaves nothing but what another try may mend leads to the copies where they
/// are asked for, else to the login. One that leaves more ends the switch with a complaint that
/// holds every reason. What was recovered, abandoned or left open is shown, each open operation
/// by its id, its reason and whether another try may help.
pub proof fn law_recovery_is_heeded(v: SwitchView, report: ReportView)
    requires
        v.stage == SwitchStage::Recover,
    ensures
        ({
            let w = switch_next(v, SwitchEventView::Recovered(Ok(report)));
            let open = report.needs_recovery;
            let fatal = exists|i: int| 0 <= i < open.len() && !(#[trigger] open[i]).retryable;
            &&& w == (SwitchView {
                stage: w.stage,
                result: w.result,
                recovery_report: w.recovery_report,
                ..v
            })
            &&& !fatal ==> w.result == v.result && w.stage == if v.copy_sessions {
                SwitchStage::CopySessions
            } else {
                SwitchStage::WriteLogin
            }
            &&& fatal ==> w.stage == SwitchStage::Finished && w.result == Some(
                Err::<JsonView, Seq<char>>(
                    "检测到无法安全恢复的会话写入（"@ + text::joined(
                        open.map_values(|i: IssueView| i.reason),
                        "；"@,
                    ) + "），已暂停切换与启动 WorkBuddy；请先处理该会话后再试"@,
                ),
            )
            &&& report.recovered.len() == 0 && report.abandoned.len() == 0 && open.len() == 0
                ==> w.recovery_report == v.recovery_report
            &&& report.recovered.len() > 0 || report.abandoned.len() > 0 || open.len() > 0 ==> {
                &&& w.recovery_report is Some
                &&& json::field(w.recovery_report->0, "recovered"@) == Some(
                    JsonView::Unsigned(report.recovered.len() as u64),
                )
                &&& json::field(w.recovery_report->0, "abandoned"@) == Some(
                    JsonView::Unsigned(report.abandoned.len() as u64),
                )
                &&& json::field(w.recovery_report->0, "needsRecovery"@) matches Some(
                    JsonView::Array(shown),
                ) && shown.len() == open.len() && forall|i: int|
                    0 <= i < open.len() ==> {
                        &&& json::field(#[trigger] shown[i], "operationId"@) == Some(
                            JsonView::Text(open[i].operation_id),
                        )
                        &&& json::field(shown[i], "reason"@) == Some(
                            JsonView::Text(open[i].reason),
                        )
                        &&& json::field(shown[i], "retryable"@) == Some(
                            JsonView::Bool(open[i].retryable),
                        )
                    }
            }
        }),
{
    lemma_report_keys();
    assert(reasons(report.needs_recovery) =~= report.needs_recovery.map_values(
        |i: IssueView| i.reason,
    ));
}

/// A recovery that cannot be had ends the switch with its complaint and nothing else changed.
pub proof fn law_missing_recovery_is_told(v: SwitchView, error: Seq<char>)
    requires
        v.stage == SwitchStage::Recover,
    ensures
        switch_next(v, SwitchEventView::Recovered(Err(error))) == (SwitchView {
            stage: SwitchStage::Finished,
            result: Some(
                Err(
                    "无法恢复未完成的会话写入（"@ + error
                        + "），已暂停切换与启动 WorkBuddy；请稍后重试"@,
                ),
            ),
            ..v
        }),
{
}

/// What was asked for never changes, and an event that no step waits for changes nothing.
pub proof fn law_request_stays_as_it_is(v: SwitchView, e: SwitchEventView)
    ensures
        ({
            let w = switch_next(v, e);
            &&& w.account_id == v.account_id
            &&& w.restart == v.restart
            &&& w.share_sessions == v.share_sessions
            &&& w.copy_sessions == v.copy_sessions
            &&& w != v ==> match v.stage {
                SwitchStage::FindAccount => e is Account,
                SwitchStage::BackupLogin => e is Backup,
                SwitchStage::Recover => e is Recovered,
                SwitchStage::CopySessions => e is Copied,
                SwitchStage::Close | SwitchStage::WriteLogin | SwitchStage::Launch => e is Done,
                SwitchStage::Finished => false,
            }
        }),
{
}

/// A new switch looks for the account first, has what was asked for, and reports nothing yet.
pub proof fn law_new_switch_starts_with_the_account(
    account_id: Seq<char>,
    restart: bool,
    share_sessions: bool,
    copy_sessions: bool,
)
    ensures
        asked_for(account_id, restart, share_sessions, copy_sessions) == (SwitchView {
            account_id,
            restart,
            share_sessions,
            copy_sessions,
            account: None,
            backup: None,
            copy_report: None,
            recovery_report: None,
            stage: SwitchStage::FindAccount,
            result: None,
        }),
{
}

/// What a switch that succeeded reports: the account and its edition, the backup, and the reports
/// on copies and recovery as they were kept, each only where there is one. A request to share
/// sessions is answered with a complaint wherever the client is started again.
pub proof fn law_success_reports_what_was_done(
    v: SwitchView,
    e: SwitchEventView,
    name: Seq<char>,
    variant: WbVariant,
)
    requires
        switch_next(v, e).stage == SwitchStage::Finished,
        switch_next(v, e).result != v.result,
        switch_next(v, e).result matches Some(Ok(_)),
        v.account == Some((name, variant)),
    ensures
        ({
            let r = match switch_next(v, e).result {
                Some(Ok(r)) => r,
                _ => JsonView::Null,
            };
            &&& json::field(r, "ok"@) == Some(JsonView::Bool(true))
            &&& json::field(r, "account"@) == Some(JsonView::Text(name))
            &&& json::field(r, "variant"@) == Some(
                JsonView::Text(
                    match variant {
                        WbVariant::Cn => "cn"@,
                        WbVariant::Ai => "ai"@,
                    },
                ),
            )
            &&& json::field(r, "backup"@) == Some(
                match v.backup {
                    Some(b) => JsonView::Text(b),
                    None => JsonView::Null,
                },
            )
            &&& json::field(r, "sessionCopy"@) == v.copy_report
            &&& json::field(r, "sessionRecovery"@) == v.recovery_report
            &&& if v.restart && v.share_sessions {
                json::field(r, "sessionShare"@) matches Some(c) && json::field(c, "error"@)
                    == Some(JsonView::Text(SHARE_UNSUPPORTED@))
            } else {
                json::field(r, "sessionShare"@) is None
            }
        }),
{
    lemma_report_keys();
}

/// The names of a report's fields differ from each other.
proof fn lemma_report_keys()
    ensures
        "ok"@ != "account"@,
        "ok"@ != "variant"@,
        "ok"@ != "backup"@,
        "ok"@ != "sessionCopy"@,
        "ok"@ != "sessionShare"@,
        "ok"@ != "sessionRecovery"@,
        "account"@ != "variant"@,
        "account"@ != "backup"@,
        "account"@ != "sessionCopy"@,
        "account"@ != "sessionShare"@,
        "account"@ != "sessionRecovery"@,
        "variant"@ != "backup"@,
        "variant"@ != "sessionCopy"@,
        "variant"@ != "sessionShare"@,
        "variant"@ != "sessionRecovery"@,
        "backup"@ != "sessionCopy"@,
        "backup"@ != "sessionShare"@,
        "backup"@ != "sessionRecovery"@,
        "sessionCopy"@ != "sessionShare"@,
        "sessionCopy"@ != "sessionRecovery"@,
        "sessionShare"@ != "sessionRecovery"@,
        "recovered"@ != "abandoned"@,
        "recovered"@ != "needsRecovery"@,
        "abandoned"@ != "needsRecovery"@,
        "operationId"@ != "reason"@,
        "operationId"@ != "retryable"@,
        "reason"@ != "retryable"@,
{
    reveal_strlit("ok");
    reveal_strlit("account");
    reveal_strlit("variant");
    reveal_strlit("backup");
    reveal_strlit("sessionCopy");
    reveal_strlit("sessionShare");
    reveal_strlit("sessionRecovery");
    reveal_strlit("recovered");
    reveal_strlit("abandoned");
    reveal_strlit("needsRecovery");
    reveal_strlit("operationId");
    reveal_strlit("reason");
    reveal_strlit("retryable");
    assert("ok"@.len() == 2);
    assert("account"@.len() == 7);
    assert("variant"@.len() == 7);
    assert("backup"@.len() == 6);
    assert("sessionCopy"@.len() == 11);
    assert("sessionShare"@.len() == 12);
    assert("sessionRecovery"@.len() == 15);
    assert("recovered"@.len() == 9);
    assert("abandoned"@.len() == 9);
    assert("needsRecovery"@.len() == 13);
    assert("operationId"@.len() == 11);
    assert("reason"@.len() == 6);
    assert("retryable"@.len() == 9);
    assert("account"@[0] != "variant"@[0]);
    assert("recovered"@[0] != "abandoned"@[0]);
}

/// The user is told of each step that takes time, and of success; of a failure nothing is told
/// here, since it is the answer.
pub proof fn law_user_is_told_of_each_step(v: SwitchView)
    ensures
        told(v) is None <==> v.stage == SwitchStage::BackupLogin || v.stage == SwitchStage::Recover
            || (v.stage == SwitchStage::Finished && !(v.result matches Some(Ok(_)))),
        v.stage == SwitchStage::FindAccount ==> told(v) == Some("开始切换账号…"@),
        v.stage == SwitchStage::Close ==> told(v) == Some("正在关闭 WorkBuddy…"@),
        v.stage == SwitchStage::CopySessions ==> told(v) == Some("正在复制会话到目标账号…"@),
        v.stage == SwitchStage::WriteLogin ==> told(v) == Some("正在写入认证文件…"@),
        v.stage == SwitchStage::Launch ==> told(v) == Some("正在启动 WorkBuddy…"@),
        v.stage == SwitchStage::Finished && (v.result matches Some(Ok(_))) ==> told(v) == Some(
            "切换完成"@,
        ),
{
}

} // verus!
