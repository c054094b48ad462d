//! A request to copy sessions for the account that is switched to: when it is refused, what is
//! done in which order, and what is reported.

use vstd::prelude::*;

use crate::json;
use crate::json::Json;
use crate::json::JsonView;
use crate::session;
use crate::session_copy::result_view;
use crate::session_copy::CopyOutcome;
use crate::session_copy::CopyOutcomeView;
use crate::session_link::IssueView;
use crate::session_link::RecoveryIssue;
use crate::session_link::RecoveryReport;
use crate::session_link::ReportView;
use crate::session_recovery::UNPARSEABLE_OPERATION_REASON;
use crate::text;
use crate::variant::WbVariant;

verus! {

/// The step that is due: what is to be looked at or done next, and reported back as an event.
#[derive(Clone, Copy, PartialEq, Eq, Structural, Debug)]
pub enum RequestStage {
    /// See whether the client is running.
    CheckRunning,
    /// See whether the edition's data can take copies.
    CheckSupported,
    /// Read who is logged in.
    ReadLogin,
    /// Take the lock for operations on the edition's sessions.
    AcquireLock,
    /// See again whether the client is running, now that the lock is held.
    Recheck,
    /// Bring copies to an end that were broken off.
    Recover,
    /// Copy the next session.
    CopySession,
    /// See whether copies are left that are not at their end.
    CountPending,
    /// Nothing.
    Finished,
}

/// What was found, or how a step ended.
pub enum RequestEvent {
    Flag(bool),
    Login(Option<String>),
    Done(Result<(), String>),
    Recovered(RecoveryReport),
    Copied(Result<CopyOutcome, String>),
}

#[verifier::ext_equal]
pub enum RequestEventView {
    Flag(bool),
    Login(Option<Seq<char>>),
    Done(Result<(), Seq<char>>),
    Recovered(ReportView),
    Copied(Result<CopyOutcomeView, Seq<char>>),
}

impl RequestEvent {
    pub open spec fn view(&self) -> RequestEventView {
        match self {
            RequestEvent::Flag(b) => RequestEventView::Flag(*b),
            RequestEvent::Login(u) => RequestEventView::Login(text::opt_text(*u)),
            RequestEvent::Done(r) => RequestEventView::Done(
                match r {
                    Ok(_) => Ok(()),
                    Err(e) => Err(e@),
                },
            ),
            RequestEvent::Recovered(r) => RequestEventView::Recovered(r@),
            RequestEvent::Copied(r) => RequestEventView::Copied(result_view(*r)),
        }
    }
}

/// A request to copy sessions.
pub struct CopyRequest {
    pub variant: WbVariant,
    /// The user id of the account that is switched to, as the account has it.
    pub target_uid: Option<String>,
    pub session_ids: Vec<String>,
    pub source_uid: Option<String>,
    /// Nothing was left to be recovered.
    pub clean: bool,
    /// How the copies ended, one for each session so far.
    pub results: Vec<Result<CopyOutcome, String>>,
    pub stage: RequestStage,
    pub report: Option<Result<Json, String>>,
}

#[verifier::ext_equal]
pub struct RequestView {
    pub variant: WbVariant,
    pub target_uid: Option<Seq<char>>,
    pub session_ids: Seq<Seq<char>>,
    pub source_uid: Option<Seq<char>>,
    pub clean: bool,
    pub results: Seq<Result<CopyOutcomeView, Seq<char>>>,
    pub stage: RequestStage,
    pub report: Option<Result<JsonView, Seq<char>>>,
}

pub open spec fn result_views(results: Seq<Result<CopyOutcome, String>>) -> Seq<
    Result<CopyOutcomeView, Seq<char>>,
> {
    results.map_values(|r: Result<CopyOutcome, String>| result_view(r))
}

pub open spec fn opt_report(r: Option<Result<Json, String>>) -> Option<
    Result<JsonView, Seq<char>>,
> {
    match r {
        Some(Ok(j)) => Some(Ok(j@)),
        Some(Err(e)) => Some(Err(e@)),
        None => None,
    }
}

// ---------------------------------------------------------------------------
// The report
// ---------------------------------------------------------------------------

/// How a copy that was made is shown.
pub open spec fn copied_json(
    id: Seq<char>,
    new_id: Seq<char>,
    group_id: Seq<char>,
    backup: Seq<char>,
) -> JsonView {
    JsonView::Object(
        map![
            "id"@ => JsonView::Text(id),
            "newId"@ => JsonView::Text(new_id),
            "groupId"@ => JsonView::Text(group_id),
            "backup"@ => JsonView::Text(backup)
        ],
    )
}

/// How a session is shown that the user has already.
pub open spec fn linked_json(id: Seq<char>, session_id: Seq<char>, group_id: Seq<char>) -> JsonView {
    JsonView::Object(
        map![
            "id"@ => JsonView::Text(id),
            "sessionId"@ => JsonView::Text(session_id),
            "groupId"@ => JsonView::Text(group_id)
        ],
    )
}

/// How a session is shown that could not be copied.
pub open spec fn error_json(id: Seq<char>, error: Seq<char>) -> JsonView {
    JsonView::Object(
        map!["id"@ => JsonView::Text(id), "error"@ => JsonView::Text(error)],
    )
}

/// The three lists of the report.
#[verifier::ext_equal]
pub struct ListsView {
    pub copied: Seq<JsonView>,
    pub linked: Seq<JsonView>,
    pub errors: Seq<JsonView>,
}

/// How the copies of the sessions ended, each in one of the three lists.
pub open spec fn sorted_out(
    ids: Seq<Seq<char>>,
    results: Seq<Result<CopyOutcomeView, Seq<char>>>,
) -> ListsView
    decreases results.len(),
{
    if results.len() == 0 {
        ListsView { copied: seq![], linked: seq![], errors: seq![] }
    } else {
        let before = sorted_out(ids, results.drop_last());
        let id = ids[results.len() - 1];
        match results.last() {
            Ok(CopyOutcomeView::Copied { new_id, group_id, backup }) => ListsView {
                copied: before.copied.push(copied_json(id, new_id, group_id, backup)),
                ..before
            },
            Ok(CopyOutcomeView::AlreadyLinked { session_id, group_id }) => ListsView {
                linked: before.linked.push(linked_json(id, session_id, group_id)),
                ..before
            },
            Err(e) => ListsView { errors: before.errors.push(error_json(id, e)), ..before },
        }
    }
}

/// The report on a request.
pub open spec fn report_json(
    source_uid: Seq<char>,
    target_uid: Seq<char>,
    lists: ListsView,
    needs_recovery: bool,
) -> JsonView {
    let base = map![
        "sourceUid"@ => JsonView::Text(source_uid),
        "targetUid"@ => JsonView::Text(target_uid),
        "copied"@ => JsonView::Array(lists.copied),
        "alreadyLinked"@ => JsonView::Array(lists.linked)
    ];
    let with_errors = if lists.errors.len() > 0 {
        base.insert("errors"@, JsonView::Array(lists.errors))
    } else {
        base
    };
    JsonView::Object(
        if needs_recovery {
            with_errors.insert("needsRecovery"@, JsonView::Bool(true))
        } else {
            with_errors
        },
    )
}

/// The report on a request, given how the copies of its sessions ended.
pub fn copy_report(
    source_uid: &str,
    target_uid: &str,
    session_ids: &Vec<String>,
    results: &Vec<Result<CopyOutcome, String>>,
    needs_recovery: bool,
) -> (r: Json)
    requires
        results@.len() <= session_ids@.len(),
    ensures
        r@ == report_json(
            source_uid@,
            target_uid@,
            sorted_out(text::texts(session_ids@), result_views(results@)),
            needs_recovery,
        ),
{
    let ghost ids = text::texts(session_ids@);
    let ghost views = result_views(results@);
    let mut copied: Vec<Json> = Vec::new();
    let mut linked: Vec<Json> = Vec::new();
    let mut errors: Vec<Json> = Vec::new();
    let mut i: usize = 0;
    assert(views.take(0) =~= seq![]);
    while i < results.len()
        invariant
            i <= results@.len() <= session_ids@.len(),
            ids == text::texts(session_ids@),
            views == result_views(results@),
            sorted_out(ids, views.take(i as int)) == (ListsView {
                copied: json::item_views(copied@),
                linked: json::item_views(linked@),
                errors: json::item_views(errors@),
            }),
        decreases results@.len() - i,
    {
        let ghost c0 = copied@;
        let ghost l0 = linked@;
        let ghost e0 = errors@;
        proof {
            assert(views.take(i + 1).len() == i + 1);
            assert(views.take(i + 1).drop_last() =~= views.take(i as int));
            assert(views.take(i + 1).last() == result_view(results@[i as int]));
            assert(ids[i as int] == session_ids@[i as int]@);
        }
        let fields = json::with_field(
            Vec::new(),
            "id",
            json::text_value(session_ids[i].as_str()),
        );
        match &results[i] {
            Ok(CopyOutcome::Copied(c)) => {
                let fields = json::with_field(
                    fields,
                    "newId",
                    json::text_value(c.new_id.as_str()),
                );
                let fields = json::with_field(
                    fields,
                    "groupId",
                    json::text_value(c.group_id.as_str()),
                );
                let fields = json::with_field(
                    fields,
                    "backup",
                    json::text_value(c.backup.as_str()),
                );
                let value = Json::Object(fields);
                let ghost shown = copied_json(ids[i as int], c.new_id@, c.group_id@, c.backup@);
                assert(value@ =~= shown);
                copied.push(value);
                assert(copied@.drop_last() =~= c0);
                assert(json::item_views(copied@) == json::item_views(c0).push(shown));
            },
            Ok(CopyOutcome::AlreadyLinked(l)) => {
                let fields = json::with_field(
                    fields,
                    "sessionId",
                    json::text_value(l.session_id.as_str()),
                );
                let fields = json::with_field(
                    fields,
                    "groupId",
                    json::text_value(l.group_id.as_str()),
                );
                let value = Json::Object(fields);
                let ghost shown = linked_json(ids[i as int], l.session_id@, l.group_id@);
                assert(value@ =~= shown);
                linked.push(value);
                assert(linked@.drop_last() =~= l0);
                assert(json::item_views(linked@) == json::item_views(l0).push(shown));
            },
            Err(e) => {
                let fields = json::with_field(fields, "error", json::text_value(e.as_str()));
                let value = Json::Object(fields);
                let ghost shown = error_json(ids[i as int], e@);
                assert(value@ =~= shown);
                errors.push(value);
                assert(errors@.drop_last() =~= e0);
                assert(json::item_views(errors@) == json::item_views(e0).push(shown));
            },
        }
        i += 1;
    }
    assert(views.take(results@.len() as int) =~= views);
    proof {
        json::lemma_item_views(errors@);
    }
    let any_errors = errors.len() > 0;
    let fields = json::with_field(Vec::new(), "sourceUid", json::text_value(source_uid));
    let fields = json::with_field(fields, "targetUid", json::text_value(target_uid));
    let fields = json::with_field(fields, "copied", Json::Array(copied));
    let mut fields = json::with_field(fields, "alreadyLinked", Json::Array(linked));
    if any_errors {
        fields = json::with_field(fields, "errors", Json::Array(errors));
    }
    if needs_recovery {
        fields = json::with_field(fields, "needsRecovery", Json::Bool(true));
    }
    Json::Object(fields)
}

// ---------------------------------------------------------------------------
// What follows what
// ---------------------------------------------------------------------------

/// The user that is copied for.
pub open spec fn target_of(v: RequestView) -> Seq<char> {
    match v.target_uid {
        Some(u) => text::trim(u),
        None => seq![],
    }
}

pub open spec fn at(v: RequestView, stage: RequestStage) -> RequestView {
    RequestView { stage, ..v }
}

/// The request is refused.
pub open spec fn refused(v: RequestView, error: Seq<char>) -> RequestView {
    RequestView { stage: RequestStage::Finished, report: Some(Err(error)), ..v }
}

/// Goes on to the login, where there is a user to copy for.
pub open spec fn uid_checked(v: RequestView) -> RequestView {
    if target_of(v).len() == 0 {
        refused(v, "目标账号缺少 uid，无法复制会话"@)
    } else {
        at(v, RequestStage::ReadLogin)
    }
}

/// After the login was read.
pub open spec fn login_read(v: RequestView, uid: Option<Seq<char>>) -> RequestView {
    match uid {
        None => refused(v, "未读取到本机登录态，无法确定来源账号"@),
        Some(u) => if u == target_of(v) {
            refused(v, "当前账号与目标账号相同，无需复制会话"@)
        } else {
            RequestView { source_uid: Some(u), stage: RequestStage::AcquireLock, ..v }
        },
    }
}

/// The issue is of a record that cannot be read.
pub open spec fn is_unreadable(i: IssueView) -> bool {
    !i.retryable && text::includes(i.reason, UNPARSEABLE_OPERATION_REASON@)
}

/// The reason of the first record at or after `from` that cannot be read.
pub open spec fn unreadable_from(issues: Seq<IssueView>, from: int) -> Option<Seq<char>>
    decreases issues.len() - from,
{
    if from < 0 || from >= issues.len() {
        None
    } else if is_unreadable(issues[from]) {
        Some(issues[from].reason)
    } else {
        unreadable_from(issues, from + 1)
    }
}

/// After the recovery: where a record cannot be read no session is copied, since a copy of it
/// may be under way.
pub open spec fn recovered(v: RequestView, report: ReportView) -> RequestView {
    let w = RequestView { clean: report.needs_recovery.len() == 0, ..v };
    match unreadable_from(report.needs_recovery, 0) {
        Some(reason) => RequestView {
            results: v.session_ids.map_values(
                |id: Seq<char>| Err::<CopyOutcomeView, Seq<char>>(reason),
            ),
            stage: RequestStage::CountPending,
            ..w
        },
        None => if v.session_ids.len() == 0 {
            at(w, RequestStage::CountPending)
        } else {
            at(w, RequestStage::CopySession)
        },
    }
}

/// After a session was copied, or was not.
pub open spec fn session_done(
    v: RequestView,
    r: Result<CopyOutcomeView, Seq<char>>,
) -> RequestView {
    let results = v.results.push(r);
    RequestView {
        results,
        stage: if results.len() < v.session_ids.len() {
            RequestStage::CopySession
        } else {
            RequestStage::CountPending
        },
        ..v
    }
}

/// The request is done.
pub open spec fn reported(v: RequestView, pending: bool) -> RequestView {
    RequestView {
        stage: RequestStage::Finished,
        report: Some(
            Ok(
                report_json(
                    match v.source_uid {
                        Some(u) => u,
                        None => seq![],
                    },
                    target_of(v),
                    sorted_out(v.session_ids, v.results),
                    !v.clean || pending,
                ),
            ),
        ),
        ..v
    }
}

/// No session has been copied before the stage.
pub open spec fn before_copies(stage: RequestStage) -> bool {
    match stage {
        RequestStage::CopySession | RequestStage::CountPending | RequestStage::Finished => false,
        _ => true,
    }
}

/// What follows an event. An event that does not belong to the step that is due changes nothing.
pub open spec fn request_next(v: RequestView, e: RequestEventView) -> RequestView {
    match (v.stage, e) {
        (RequestStage::CheckRunning, RequestEventView::Flag(running)) => if running {
            refused(v, session::SESSION_COPY_APP_RUNNING@)
        } else if v.variant == WbVariant::Ai {
            at(v, RequestStage::CheckSupported)
        } else {
            uid_checked(v)
        },
        (RequestStage::CheckSupported, RequestEventView::Flag(supported)) => if supported {
            uid_checked(v)
        } else {
            refused(
                v,
                session::SESSION_COPY_UNSUPPORTED@ + "（档位 "@ + v.variant.name() + "）"@,
            )
        },
        (RequestStage::ReadLogin, RequestEventView::Login(uid)) => login_read(v, uid),
        (RequestStage::AcquireLock, RequestEventView::Done(r)) => match r {
            Ok(_) => at(v, RequestStage::Recheck),
            Err(e) => refused(v, e),
        },
        (RequestStage::Recheck, RequestEventView::Flag(running)) => if running {
            refused(v, session::SESSION_COPY_APP_RUNNING@)
        } else {
            at(v, RequestStage::Recover)
        },
        (RequestStage::Recover, RequestEventView::Recovered(report)) => recovered(v, report),
        (RequestStage::CopySession, RequestEventView::Copied(r)) => session_done(v, r),
        (RequestStage::CountPending, RequestEventView::Flag(pending)) => reported(v, pending),
        _ => v,
    }
}

/// The request as it comes.
pub open spec fn requested(
    variant: WbVariant,
    target_uid: Option<Seq<char>>,
    session_ids: Seq<Seq<char>>,
) -> RequestView {
    RequestView {
        variant,
        target_uid,
        session_ids,
        source_uid: None,
        clean: true,
        results: seq![],
        stage: RequestStage::CheckRunning,
        report: None,
    }
}

// ---------------------------------------------------------------------------
// Taking the steps
// ---------------------------------------------------------------------------

/// The reason of the first record that cannot be read, among the issues.
pub fn unreadable_reason(issues: &Vec<RecoveryIssue>) -> (r: Option<String>)
    ensures
        text::opt_text(r) == unreadable_from(crate::session_link::issue_views(issues@), 0),
{
    let ghost views = crate::session_link::issue_views(issues@);
    let mut i: usize = 0;
    while i < issues.len()
        invariant
            i <= issues@.len(),
            views == crate::session_link::issue_views(issues@),
            unreadable_from(views, 0) == unreadable_from(views, i as int),
        decreases issues@.len() - i,
    {
        assert(views[i as int] == issues@[i as int]@);
        if !issues[i].retryable && text::has_text(
            issues[i].reason.as_str(),
            UNPARSEABLE_OPERATION_REASON,
        ) {
            return Some(issues[i].reason.clone());
        }
        i += 1;
    }
    None
}

impl CopyRequest {
    pub open spec fn view(&self) -> RequestView {
        RequestView {
            variant: self.variant,
            target_uid: text::opt_text(self.target_uid),
            session_ids: text::texts(self.session_ids@),
            source_uid: text::opt_text(self.source_uid),
            clean: self.clean,
            results: result_views(self.results@),
            stage: self.stage,
            report: opt_report(self.report),
        }
    }

    /// There are no more results than sessions; while sessions are copied, there are fewer.
    pub open spec fn fits(&self) -> bool {
        &&& self.results@.len() <= self.session_ids@.len()
        &&& self.stage == RequestStage::CopySession ==> self.results@.len()
            < self.session_ids@.len()
        &&& before_copies(self.stage) ==> self.results@.len() == 0
    }

    /// A request to copy the sessions for the user.
    pub fn new(variant: WbVariant, target_uid: Option<String>, session_ids: Vec<String>) -> (r:
        CopyRequest)
        ensures
            r@ == requested(variant, text::opt_text(target_uid), text::texts(session_ids@)),
            r.fits(),
    {
        let r = CopyRequest {
            variant,
            target_uid,
            session_ids,
            source_uid: None,
            clean: true,
            results: Vec::new(),
            stage: RequestStage::CheckRunning,
            report: None,
        };
        assert(result_views(r.results@) =~= seq![]);
        r
    }

    fn refuse(&mut self, error: String)
        ensures
            final(self)@ == refused(old(self)@, error@),
            final(self).results == old(self).results,
            final(self).session_ids == old(self).session_ids,
    {
        self.report = Some(Err(error));
        self.stage = RequestStage::Finished;
    }

    fn target(&self) -> (r: String)
        ensures
            r@ == target_of(self@),
    {
        match &self.target_uid {
            Some(u) => text::trimmed_text(u.as_str()),
            None => String::new(),
        }
    }

    fn check_uid(&mut self)
        ensures
            final(self)@ == uid_checked(old(self)@),
            final(self).results == old(self).results,
            final(self).session_ids == old(self).session_ids,
    {
        if self.target().as_str().unicode_len() == 0 {
            self.refuse("目标账号缺少 uid，无法复制会话".to_owned());
        } else {
            self.stage = RequestStage::ReadLogin;
        }
    }

    fn take_login(&mut self, uid: Option<String>)
        ensures
            final(self)@ == login_read(old(self)@, text::opt_text(uid)),
            final(self).results == old(self).results,
            final(self).session_ids == old(self).session_ids,
    {
        match uid {
            None => {
                self.refuse("未读取到本机登录态，无法确定来源账号".to_owned());
            },
            Some(u) => {
                if text::same_text(u.as_str(), self.target().as_str()) {
                    self.refuse("当前账号与目标账号相同，无需复制会话".to_owned());
                } else {
                    self.source_uid = Some(u);
                    self.stage = RequestStage::AcquireLock;
                }
            },
        }
    }

    fn take_recovery(&mut self, report: RecoveryReport)
        requires
            old(self).results@.len() == 0,
        ensures
            final(self)@ == recovered(old(self)@, report@),
            final(self).results@.len() <= final(self).session_ids@.len(),
            final(self).stage == RequestStage::CopySession ==> final(self).session_ids@.len()
                > final(self).results@.len(),
            final(self).stage == RequestStage::CopySession || final(self).stage
                == RequestStage::CountPending,
    {
        let ghost v = self@;
        self.clean = report.is_clean();
        match unreadable_reason(&report.needs_recovery) {
            Some(reason) => {
                let mut results: Vec<Result<CopyOutcome, String>> = Vec::new();
                let n: usize = self.session_ids.len();
                let mut i: usize = 0;
                while i < n
                    invariant
                        i <= n,
                        results@.len() == i,
                        forall|j: int|
                            0 <= j < i ==> result_view(#[trigger] results@[j]) == Err::<
                                CopyOutcomeView,
                                Seq<char>,
                            >(reason@),
                    decreases n - i,
                {
                    results.push(Err(reason.clone()));
                    i += 1;
                }
                assert(result_views(results@) =~= v.session_ids.map_values(
                    |id: Seq<char>| Err::<CopyOutcomeView, Seq<char>>(reason@),
                ));
                self.results = results;
                self.stage = RequestStage::CountPending;
            },
            None => {
                if self.session_ids.len() == 0 {
                    self.stage = RequestStage::CountPending;
                } else {
                    self.stage = RequestStage::CopySession;
                }
            },
        }
    }

    fn take_copied(&mut self, r: Result<CopyOutcome, String>)
        requires
            old(self).results@.len() < old(self).session_ids@.len(),
        ensures
            final(self)@ == session_done(old(self)@, result_view(r)),
            final(self).session_ids == old(self).session_ids,
            final(self).results@.len() == old(self).results@.len() + 1,
    {
        let ghost before = self.results@;
        self.results.push(r);
        assert(result_views(self.results@) =~= result_views(before).push(result_view(r)));
        self.stage = if self.results.len() < self.session_ids.len() {
            RequestStage::CopySession
        } else {
            RequestStage::CountPending
        };
    }

    fn finish(&mut self, pending: bool)
        requires
            old(self).results@.len() <= old(self).session_ids@.len(),
        ensures
            final(self)@ == reported(old(self)@, pending),
            final(self).results == old(self).results,
            final(self).session_ids == old(self).session_ids,
    {
        let source = match &self.source_uid {
            Some(u) => u.clone(),
            None => String::new(),
        };
        let target = self.target();
        let report = copy_report(
            source.as_str(),
            target.as_str(),
            &self.session_ids,
            &self.results,
            !self.clean || pending,
        );
        self.report = Some(Ok(report));
        self.stage = RequestStage::Finished;
    }

    /// Takes in what was found or how the step ended that was due.
    pub fn step(&mut self, event: RequestEvent)
        requires
            old(self).fits(),
        ensures
            final(self)@ == request_next(old(self)@, event@),
            final(self).fits(),
    {
        match (self.stage, event) {
            (RequestStage::CheckRunning, RequestEvent::Flag(running)) => {
                if running {
                    self.refuse(session::SESSION_COPY_APP_RUNNING.to_owned());
                } else if self.variant == WbVariant::Ai {
                    self.stage = RequestStage::CheckSupported;
                } else {
                    self.check_uid();
                }
            },
            (RequestStage::CheckSupported, RequestEvent::Flag(supported)) => {
                if supported {
                    self.check_uid();
                } else {
                    let mut e = text::concat3(
                        session::SESSION_COPY_UNSUPPORTED,
                        "（档位 ",
                        self.variant.as_str(),
                    );
                    e.append("）");
                    self.refuse(e);
                }
            },
            (RequestStage::ReadLogin, RequestEvent::Login(uid)) => {
                self.take_login(uid);
            },
            (RequestStage::AcquireLock, RequestEvent::Done(r)) => match r {
                Ok(_) => {
                    self.stage = RequestStage::Recheck;
                },
                Err(e) => {
                    self.refuse(e);
                },
            },
            (RequestStage::Recheck, RequestEvent::Flag(running)) => {
                if running {
                    self.refuse(session::SESSION_COPY_APP_RUNNING.to_owned());
                } else {
                    self.stage = RequestStage::Recover;
                }
            },
            (RequestStage::Recover, RequestEvent::Recovered(report)) => {
                self.take_recovery(report);
            },
            (RequestStage::CopySession, RequestEvent::Copied(r)) => {
                self.take_copied(r);
            },
            (RequestStage::CountPending, RequestEvent::Flag(pending)) => {
                self.finish(pending);
            },
            _ => {},
        }
    }
}

// ---------------------------------------------------------------------------
// Laws
// ---------------------------------------------------------------------------

/// The stage is one in which sessions may be written.
pub open spec fn may_write(stage: RequestStage) -> bool {
    stage == RequestStage::Recover || stage == RequestStage::CopySession
}

/// Nothing is written unless the client was found not to be running after the lock was taken:
/// to the stages that write leads no other way.
pub proof fn law_writes_follow_the_check_under_the_lock(v: RequestView, e: RequestEventView)
    requires
        !may_write(v.stage),
        may_write(request_next(v, e).stage),
    ensures
        v.stage == RequestStage::Recheck,
        e == RequestEventView::Flag(false),
{
}

/// A client that is running is a reason to refuse the request, before the lock is taken and
/// after; so is a lock that cannot be had.
pub proof fn law_running_client_or_lost_lock_refuses(v: RequestView, error: Seq<char>)
    ensures
        v.stage == RequestStage::CheckRunning || v.stage == RequestStage::Recheck ==> request_next(
            v,
            RequestEventView::Flag(true),
        ) == refused(v, session::SESSION_COPY_APP_RUNNING@),
        v.stage == RequestStage::AcquireLock ==> request_next(
            v,
            RequestEventView::Done(Err(error)),
        ) == refused(v, error),
{
}

/// Only the international edition is asked whether its data can take copies.
pub proof fn law_only_ai_is_probed(v: RequestView, e: RequestEventView)
    requires
        v.variant == WbVariant::Cn,
        v.stage != RequestStage::CheckSupported,
    ensures
        request_next(v, e).stage != RequestStage::CheckSupported,
{
}

proof fn lemma_unreadable_found(issues: Seq<IssueView>, from: int, i: int)
    requires
        0 <= from <= i < issues.len(),
        is_unreadable(issues[i]),
    ensures
        unreadable_from(issues, from) is Some,
    decreases issues.len() - from,
{
    if !is_unreadable(issues[from]) {
        lemma_unreadable_found(issues, from + 1, i);
    }
}

/// Where a record cannot be read, no session is copied, and each is reported with an error.
pub proof fn law_unreadable_record_blocks_copies(v: RequestView, report: ReportView, i: int)
    requires
        v.stage == RequestStage::Recover,
        0 <= i < report.needs_recovery.len(),
        is_unreadable(report.needs_recovery[i]),
    ensures
        ({
            let w = request_next(v, RequestEventView::Recovered(report));
            &&& w.stage == RequestStage::CountPending
            &&& !w.clean
            &&& w.results.len() == v.session_ids.len()
            &&& forall|k: int| 0 <= k < w.results.len() ==> (#[trigger] w.results[k]) is Err
        }),
{
    lemma_unreadable_found(report.needs_recovery, 0, i);
}

/// The ids that the entries of a list of the report are of.
pub open spec fn listed_ids(list: Seq<JsonView>) -> Seq<Seq<char>> {
    list.map_values(|j: JsonView| json::text_in(json::field(j, "id"@))->0)
}

/// How the copy of a session ended, as the report tells it apart.
pub enum Ending {
    Copied,
    Linked,
    Failed,
}

pub open spec fn ending(r: Result<CopyOutcomeView, Seq<char>>) -> Ending {
    match r {
        Ok(CopyOutcomeView::Copied { .. }) => Ending::Copied,
        Ok(CopyOutcomeView::AlreadyLinked { .. }) => Ending::Linked,
        Err(_) => Ending::Failed,
    }
}

/// The ids of the sessions whose copies ended in the way, in their order.
pub open spec fn ids_ending(
    ids: Seq<Seq<char>>,
    results: Seq<Result<CopyOutcomeView, Seq<char>>>,
    way: Ending,
) -> Seq<Seq<char>>
    decreases results.len(),
{
    if results.len() == 0 {
        seq![]
    } else if ending(results.last()) == way {
        ids_ending(ids, results.drop_last(), way).push(ids[results.len() - 1])
    } else {
        ids_ending(ids, results.drop_last(), way)
    }
}

proof fn lemma_entry_ids(id: Seq<char>, a: Seq<char>, b: Seq<char>, c: Seq<char>)
    ensures
        json::text_in(json::field(copied_json(id, a, b, c), "id"@)) == Some(id),
        json::text_in(json::field(linked_json(id, a, b), "id"@)) == Some(id),
        json::text_in(json::field(error_json(id, a), "id"@)) == Some(id),
{
    reveal_strlit("id");
    reveal_strlit("newId");
    reveal_strlit("groupId");
    reveal_strlit("backup");
    reveal_strlit("sessionId");
    reveal_strlit("error");
    assert("id"@.len() != "newId"@.len());
    assert("id"@.len() != "groupId"@.len());
    assert("id"@.len() != "backup"@.len());
    assert("id"@.len() != "sessionId"@.len());
    assert("id"@.len() != "error"@.len());
}

/// No session is passed over in silence: each stands once in the list of the report that tells
/// how its copy ended, and in each list the sessions are in the order of the request.
pub proof fn law_every_session_is_reported(
    ids: Seq<Seq<char>>,
    results: Seq<Result<CopyOutcomeView, Seq<char>>>,
)
    requires
        results.len() <= ids.len(),
    ensures
        ({
            let lists = sorted_out(ids, results);
            &&& listed_ids(lists.copied) == ids_ending(ids, results, Ending::Copied)
            &&& listed_ids(lists.linked) == ids_ending(ids, results, Ending::Linked)
            &&& listed_ids(lists.errors) == ids_ending(ids, results, Ending::Failed)
            &&& listed_ids(lists.copied).to_multiset().add(
                listed_ids(lists.linked).to_multiset(),
            ).add(listed_ids(lists.errors).to_multiset()) == ids.take(
                results.len() as int,
            ).to_multiset()
        }),
    decreases results.len(),
{
    broadcast use vstd::seq_lib::group_to_multiset_ensures;

    let lists = sorted_out(ids, results);
    let taken = ids.take(results.len() as int);
    if results.len() == 0 {
        let none = Seq::<Seq<char>>::empty();
        assert(taken =~= none);
        assert(listed_ids(lists.copied) =~= none);
        assert(none.to_multiset().add(none.to_multiset()).add(none.to_multiset())
            =~= none.to_multiset());
    } else {
        let front = results.drop_last();
        let before = sorted_out(ids, front);
        let id = ids[results.len() - 1];
        law_every_session_is_reported(ids, front);
        let prior = ids.take(front.len() as int);
        assert(taken =~= prior.push(id));
        match results.last() {
            Ok(CopyOutcomeView::Copied { new_id, group_id, backup }) => {
                lemma_entry_ids(id, new_id, group_id, backup);
                assert(listed_ids(lists.copied) =~= listed_ids(before.copied).push(id));
            },
            Ok(CopyOutcomeView::AlreadyLinked { session_id, group_id }) => {
                lemma_entry_ids(id, session_id, group_id, seq![]);
                assert(listed_ids(lists.linked) =~= listed_ids(before.linked).push(id));
            },
            Err(e) => {
                lemma_entry_ids(id, e, seq![], seq![]);
                assert(listed_ids(lists.errors) =~= listed_ids(before.errors).push(id));
            },
        }
        assert(listed_ids(lists.copied).to_multiset().add(
            listed_ids(lists.linked).to_multiset(),
        ).add(listed_ids(lists.errors).to_multiset()) =~= prior.to_multiset().insert(id));
    }
}

/// The request is refused with the complaint, and nothing else of it changes.
pub open spec fn refuses_with(v: RequestView, w: RequestView, error: Seq<char>) -> bool {
    w == (RequestView { stage: RequestStage::Finished, report: Some(Err(error)), ..v })
}

/// There is a user to copy for.
pub open spec fn has_target(v: RequestView) -> bool {
    v.target_uid is Some && text::trim(v.target_uid->0).len() > 0
}

/// A request starts with what is asked for and with nothing done.
pub proof fn law_request_starts_as_it_comes(
    variant: WbVariant,
    target_uid: Option<Seq<char>>,
    session_ids: Seq<Seq<char>>,
)
    ensures
        ({
            let v = requested(variant, target_uid, session_ids);
            &&& v.variant == variant
            &&& v.target_uid == target_uid
            &&& v.session_ids == session_ids
            &&& v.source_uid is None
            &&& v.clean
            &&& v.results.len() == 0
            &&& v.stage == RequestStage::CheckRunning
            &&& v.report is None
        }),
{
}

/// While the client is running, nothing is copied. Otherwise the international edition is asked
/// whether it can take copies, and the other goes on to the login at once, where there is a user
/// to copy for.
pub proof fn law_running_client_is_checked_first(v: RequestView)
    requires
        v.stage == RequestStage::CheckRunning,
    ensures
        refuses_with(
            v,
            request_next(v, RequestEventView::Flag(true)),
            "WorkBuddy 正在运行，已阻止直接写入会话数据；请先退出 WorkBuddy 后重试"@,
        ),
        ({
            let w = request_next(v, RequestEventView::Flag(false));
            &&& v.variant == WbVariant::Ai ==> w == (RequestView {
                stage: RequestStage::CheckSupported,
                ..v
            })
            &&& v.variant == WbVariant::Cn && has_target(v) ==> w == (RequestView {
                stage: RequestStage::ReadLogin,
                ..v
            })
            &&& v.variant == WbVariant::Cn && !has_target(v) ==> refuses_with(
                v,
                w,
                "目标账号缺少 uid，无法复制会话"@,
            )
        }),
{
}

/// An edition that cannot take copies refuses them, by its name; one that can goes on to the
/// login, where there is a user to copy for.
pub proof fn law_edition_must_take_copies(v: RequestView)
    requires
        v.stage == RequestStage::CheckSupported,
    ensures
        refuses_with(
            v,
            request_next(v, RequestEventView::Flag(false)),
            "该档位暂不支持会话复制"@ + "（档位 "@ + (match v.variant {
                WbVariant::Cn => "cn"@,
                WbVariant::Ai => "ai"@,
            }) + "）"@,
        ),
        has_target(v) ==> request_next(v, RequestEventView::Flag(true)) == (RequestView {
            stage: RequestStage::ReadLogin,
            ..v
        }),
        !has_target(v) ==> refuses_with(
            v,
            request_next(v, RequestEventView::Flag(true)),
            "目标账号缺少 uid，无法复制会话"@,
        ),
{
}

/// The sessions are those of the user that is logged in, who must be known and another than the
/// one that is copied for.
pub proof fn law_source_is_who_is_logged_in(v: RequestView, uid: Seq<char>, target: Seq<char>)
    requires
        v.stage == RequestStage::ReadLogin,
        v.target_uid == Some(target),
    ensures
        uid != text::trim(target) ==> request_next(v, RequestEventView::Login(Some(uid))) == (
        RequestView { source_uid: Some(uid), stage: RequestStage::AcquireLock, ..v }),
        refuses_with(
            v,
            request_next(v, RequestEventView::Login(Some(text::trim(target)))),
            "当前账号与目标账号相同，无需复制会话"@,
        ),
        refuses_with(
            v,
            request_next(v, RequestEventView::Login(None)),
            "未读取到本机登录态，无法确定来源账号"@,
        ),
{
}

/// With the lock the client is looked for again, and only where it is not running are copies
/// recovered. Without the lock the request is refused with the lock's complaint.
pub proof fn law_lock_comes_before_the_second_check(v: RequestView, error: Seq<char>)
    ensures
        v.stage == RequestStage::AcquireLock ==> {
            &&& request_next(v, RequestEventView::Done(Ok(()))) == (RequestView {
                stage: RequestStage::Recheck,
                ..v
            })
            &&& refuses_with(v, request_next(v, RequestEventView::Done(Err(error))), error)
        },
        v.stage == RequestStage::Recheck ==> {
            &&& request_next(v, RequestEventView::Flag(false)) == (RequestView {
                stage: RequestStage::Recover,
                ..v
            })
            &&& refuses_with(
                v,
                request_next(v, RequestEventView::Flag(true)),
                "WorkBuddy 正在运行，已阻止直接写入会话数据；请先退出 WorkBuddy 后重试"@,
            )
        },
{
}

/// After the recovery the sessions are copied, unless a record could not be read: then each
/// session fails with the reason of the first such. What else is left to be recovered keeps no
/// session from being copied, but is remembered.
pub proof fn law_copies_follow_the_recovery(v: RequestView, report: ReportView, k: int)
    requires
        v.stage == RequestStage::Recover,
    ensures
        ({
            let w = request_next(v, RequestEventView::Recovered(report));
            let left = report.needs_recovery;
            &&& w == (RequestView { clean: w.clean, results: w.results, stage: w.stage, ..v })
            &&& w.clean <==> left.len() == 0
            &&& (forall|j: int|
                0 <= j < left.len() ==> (#[trigger] left[j]).retryable || !text::includes(
                    left[j].reason,
                    "操作记录无法解析"@,
                )) ==> w.results == v.results && w.stage == if v.session_ids.len() > 0 {
                RequestStage::CopySession
            } else {
                RequestStage::CountPending
            }
            &&& 0 <= k < left.len() && !left[k].retryable && text::includes(
                left[k].reason,
                "操作记录无法解析"@,
            ) && (forall|j: int|
                0 <= j < k ==> (#[trigger] left[j]).retryable || !text::includes(
                    left[j].reason,
                    "操作记录无法解析"@,
                )) ==> {
                &&& w.stage == RequestStage::CountPending
                &&& w.results.len() == v.session_ids.len()
                &&& forall|i: int|
                    0 <= i < w.results.len() ==> #[trigger] w.results[i] == Err::<
                        CopyOutcomeView,
                        Seq<char>,
                    >(left[k].reason)
            }
        }),
{
    lemma_first_unreadable(report.needs_recovery, 0, k);
}

proof fn lemma_first_unreadable(issues: Seq<IssueView>, from: int, k: int)
    requires
        0 <= from,
    ensures
        (forall|j: int| from <= j < issues.len() ==> !is_unreadable(#[trigger] issues[j]))
            ==> unreadable_from(issues, from) is None,
        from <= k < issues.len() && is_unreadable(issues[k]) && (forall|j: int|
            from <= j < k ==> !is_unreadable(#[trigger] issues[j])) ==> unreadable_from(
            issues,
            from,
        ) == Some(issues[k].reason),
    decreases issues.len() - from,
{
    if from < issues.len() && !is_unreadable(issues[from]) {
        lemma_first_unreadable(issues, from + 1, k);
    }
}

/// How a session's copy ended is kept behind those before it, and the next session follows as long
/// as there is one.
pub proof fn law_sessions_are_copied_one_by_one(
    v: RequestView,
    r: Result<CopyOutcomeView, Seq<char>>,
)
    requires
        v.stage == RequestStage::CopySession,
    ensures
        request_next(v, RequestEventView::Copied(r)) == (RequestView {
            results: v.results.push(r),
            stage: if v.results.len() + 1 < v.session_ids.len() {
                RequestStage::CopySession
            } else {
                RequestStage::CountPending
            },
            ..v
        }),
{
}

/// The report names the two users, and shows each list; the errors only where there are some, and
/// that something is left to be recovered only where it is: from before, or of these copies.
pub proof fn law_request_is_reported_as_it_went(
    v: RequestView,
    pending: bool,
    source: Seq<char>,
    target: Seq<char>,
)
    requires
        v.stage == RequestStage::CountPending,
        v.source_uid == Some(source),
        v.target_uid == Some(target),
    ensures
        ({
            let w = request_next(v, RequestEventView::Flag(pending));
            let lists = sorted_out(v.session_ids, v.results);
            &&& w == (RequestView { stage: RequestStage::Finished, report: w.report, ..v })
            &&& w.report matches Some(Ok(shown)) && {
                &&& json::field(shown, "sourceUid"@) == Some(JsonView::Text(source))
                &&& json::field(shown, "targetUid"@) == Some(JsonView::Text(text::trim(target)))
                &&& json::field(shown, "copied"@) == Some(JsonView::Array(lists.copied))
                &&& json::field(shown, "alreadyLinked"@) == Some(JsonView::Array(lists.linked))
                &&& lists.errors.len() > 0 ==> json::field(shown, "errors"@) == Some(
                    JsonView::Array(lists.errors),
                )
                &&& lists.errors.len() == 0 ==> json::field(shown, "errors"@) is None
                &&& v.clean && !pending ==> json::field(shown, "needsRecovery"@) is None
                &&& !v.clean || pending ==> json::field(shown, "needsRecovery"@) == Some(
                    JsonView::Bool(true),
                )
            }
        }),
{
    lemma_shown_keys();
}

/// How the copy of a session ended is shown with the session's id, behind those before it in its
/// list: a copy with its id, its group and the backup; one that the user has already with its id
/// and group; a failure with its complaint. The other lists stay as they are.
pub proof fn law_each_ending_is_shown(
    ids: Seq<Seq<char>>,
    results: Seq<Result<CopyOutcomeView, Seq<char>>>,
    new_id: Seq<char>,
    group_id: Seq<char>,
    word: Seq<char>,
)
    requires
        results.len() < ids.len(),
    ensures
        ({
            let before = sorted_out(ids, results);
            let id = JsonView::Text(ids[results.len() as int]);
            let made = sorted_out(
                ids,
                results.push(Ok(CopyOutcomeView::Copied { new_id, group_id, backup: word })),
            );
            let had = sorted_out(
                ids,
                results.push(Ok(CopyOutcomeView::AlreadyLinked { session_id: new_id, group_id })),
            );
            let not = sorted_out(ids, results.push(Err(word)));
            &&& made.linked == before.linked && made.errors == before.errors
            &&& made.copied.len() == before.copied.len() + 1
            &&& made.copied.drop_last() == before.copied
            &&& json::field(made.copied.last(), "id"@) == Some(id)
            &&& json::field(made.copied.last(), "newId"@) == Some(JsonView::Text(new_id))
            &&& json::field(made.copied.last(), "groupId"@) == Some(JsonView::Text(group_id))
            &&& json::field(made.copied.last(), "backup"@) == Some(JsonView::Text(word))
            &&& had.copied == before.copied && had.errors == before.errors
            &&& had.linked.len() == before.linked.len() + 1
            &&& had.linked.drop_last() == before.linked
            &&& json::field(had.linked.last(), "id"@) == Some(id)
            &&& json::field(had.linked.last(), "sessionId"@) == Some(JsonView::Text(new_id))
            &&& json::field(had.linked.last(), "groupId"@) == Some(JsonView::Text(group_id))
            &&& not.copied == before.copied && not.linked == before.linked
            &&& not.errors.len() == before.errors.len() + 1
            &&& not.errors.drop_last() == before.errors
            &&& json::field(not.errors.last(), "id"@) == Some(id)
            &&& json::field(not.errors.last(), "error"@) == Some(JsonView::Text(word))
        }),
{
    lemma_shown_keys();
    let before = sorted_out(ids, results);
    let copied = results.push(Ok(CopyOutcomeView::Copied { new_id, group_id, backup: word }));
    let linked = results.push(
        Ok(CopyOutcomeView::AlreadyLinked { session_id: new_id, group_id }),
    );
    let failed = results.push(Err::<CopyOutcomeView, Seq<char>>(word));
    assert(copied.drop_last() =~= results);
    assert(linked.drop_last() =~= results);
    assert(failed.drop_last() =~= results);
    assert(sorted_out(ids, copied).copied.drop_last() =~= before.copied);
    assert(sorted_out(ids, linked).linked.drop_last() =~= before.linked);
    assert(sorted_out(ids, failed).errors.drop_last() =~= before.errors);
}

/// What was asked for never changes, and an event that no step waits for changes nothing.
pub proof fn law_what_was_asked_for_stays(v: RequestView, e: RequestEventView)
    ensures
        ({
            let w = request_next(v, e);
            &&& w.variant == v.variant
            &&& w.target_uid == v.target_uid
            &&& w.session_ids == v.session_ids
            &&& w != v ==> match v.stage {
                RequestStage::CheckRunning | RequestStage::CheckSupported | RequestStage::Recheck
                | RequestStage::CountPending => e is Flag,
                RequestStage::ReadLogin => e is Login,
                RequestStage::AcquireLock => e is Done,
                RequestStage::Recover => e is Recovered,
                RequestStage::CopySession => e is Copied,
                RequestStage::Finished => false,
            }
        }),
{
}

/// The names of what is shown of a request differ from each other.
proof fn lemma_shown_keys()
    ensures
        "sourceUid"@ != "targetUid"@,
        "sourceUid"@ != "copied"@,
        "sourceUid"@ != "alreadyLinked"@,
        "sourceUid"@ != "errors"@,
        "sourceUid"@ != "needsRecovery"@,
        "targetUid"@ != "copied"@,
        "targetUid"@ != "alreadyLinked"@,
        "targetUid"@ != "errors"@,
        "targetUid"@ != "needsRecovery"@,
        "copied"@ != "alreadyLinked"@,
        "copied"@ != "errors"@,
        "copied"@ != "needsRecovery"@,
        "alreadyLinked"@ != "errors"@,
        "alreadyLinked"@ != "needsRecovery"@,
        "errors"@ != "needsRecovery"@,
        "id"@ != "newId"@,
        "id"@ != "groupId"@,
        "id"@ != "backup"@,
        "id"@ != "sessionId"@,
        "id"@ != "error"@,
        "newId"@ != "groupId"@,
        "newId"@ != "backup"@,
        "newId"@ != "sessionId"@,
        "newId"@ != "error"@,
        "groupId"@ != "backup"@,
        "groupId"@ != "sessionId"@,
        "groupId"@ != "error"@,
        "backup"@ != "sessionId"@,
        "backup"@ != "error"@,
        "sessionId"@ != "error"@,
{
    reveal_strlit("sourceUid");
    reveal_strlit("targetUid");
    reveal_strlit("copied");
    reveal_strlit("alreadyLinked");
    reveal_strlit("errors");
    reveal_strlit("needsRecovery");
    reveal_strlit("id");
    reveal_strlit("newId");
    reveal_strlit("groupId");
    reveal_strlit("backup");
    reveal_strlit("sessionId");
    reveal_strlit("error");
    assert("sourceUid"@.len() == 9);
    assert("targetUid"@.len() == 9);
    assert("copied"@.len() == 6);
    assert("alreadyLinked"@.len() == 13);
    assert("errors"@.len() == 6);
    assert("needsRecovery"@.len() == 13);
    assert("id"@.len() == 2);
    assert("newId"@.len() == 5);
    assert("groupId"@.len() == 7);
    assert("backup"@.len() == 6);
    assert("sessionId"@.len() == 9);
    assert("error"@.len() == 5);
    assert("sourceUid"@[0] != "targetUid"@[0]);
    assert("copied"@[0] != "errors"@[0]);
    assert("alreadyLinked"@[0] != "needsRecovery"@[0]);
    assert("newId"@[0] != "error"@[0]);
}

} // verus!
