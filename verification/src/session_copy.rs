//! Copying a session for another account: the id of the copy is put down before anything is
//! written, and what was begun is not begun a second time.

use vstd::prelude::*;

use crate::session;
use crate::session::DbCopyOutcome;
use crate::session_link;
use crate::session_link::is_uuid;
use crate::session_link::phase_rank;
use crate::session_link::ContentState;
use crate::session_link::ContentStateView;
use crate::session_link::ContentView;
use crate::session_link::NormalizedContent;
use crate::session_link::OpPhase;
use crate::session_link::Operation;
use crate::session_link::OperationMember;
use crate::session_link::OperationMemberView;
use crate::session_link::OperationView;
use crate::session_link::StoreState;
use crate::session_link::StoreStateView;
use crate::session_recovery;
use crate::session_recovery::opt_content;
use crate::text;
use crate::variant::WbVariant;

verus! {

/// What is copied, for whom.
#[derive(Debug, PartialEq, Eq)]
pub struct CopyInput {
    pub variant: WbVariant,
    pub session_id: String,
    pub source_uid: String,
    pub source_account_id: Option<String>,
    pub target_uid: String,
    pub target_account_id: Option<String>,
}

#[verifier::ext_equal]
pub struct InputView {
    pub variant: WbVariant,
    pub session_id: Seq<char>,
    pub source_uid: Seq<char>,
    pub source_account_id: Option<Seq<char>>,
    pub target_uid: Seq<char>,
    pub target_account_id: Option<Seq<char>>,
}

impl CopyInput {
    pub open spec fn view(&self) -> InputView {
        InputView {
            variant: self.variant,
            session_id: self.session_id@,
            source_uid: self.source_uid@,
            source_account_id: text::opt_text(self.source_account_id),
            target_uid: self.target_uid@,
            target_account_id: text::opt_text(self.target_account_id),
        }
    }
}

/// How a copy ended well.
#[derive(Debug, PartialEq, Eq)]
pub enum CopyOutcome {
    Copied(CopiedSession),
    /// The user has the session already.
    AlreadyLinked(LinkedSession),
}

#[derive(Debug, PartialEq, Eq)]
pub struct CopiedSession {
    pub new_id: String,
    pub group_id: String,
    pub backup: String,
}

#[derive(Debug, PartialEq, Eq)]
pub struct LinkedSession {
    pub session_id: String,
    pub group_id: String,
}

#[verifier::ext_equal]
pub enum CopyOutcomeView {
    Copied { new_id: Seq<char>, group_id: Seq<char>, backup: Seq<char> },
    AlreadyLinked { session_id: Seq<char>, group_id: Seq<char> },
}

impl CopyOutcome {
    pub open spec fn view(&self) -> CopyOutcomeView {
        match self {
            CopyOutcome::Copied(c) => CopyOutcomeView::Copied {
                new_id: c.new_id@,
                group_id: c.group_id@,
                backup: c.backup@,
            },
            CopyOutcome::AlreadyLinked(l) => CopyOutcomeView::AlreadyLinked {
                session_id: l.session_id@,
                group_id: l.group_id@,
            },
        }
    }
}

pub open spec fn result_view(r: Result<CopyOutcome, String>) -> Result<CopyOutcomeView, Seq<char>> {
    match r {
        Ok(o) => Ok(o@),
        Err(e) => Err(e@),
    }
}

pub open spec fn opt_result(r: Option<Result<CopyOutcome, String>>) -> Option<
    Result<CopyOutcomeView, Seq<char>>,
> {
    match r {
        Some(x) => Some(result_view(x)),
        None => None,
    }
}

/// The step that is due: what is to be looked at or done next, and reported back as an event.
#[derive(Clone, Copy, PartialEq, Eq, Structural, Debug)]
pub enum CopyStage {
    /// Read the body of the source.
    ReadSource,
    /// Look up the owner of the source's row.
    FindOwner,
    /// Load the store of links.
    LoadStore,
    /// See whether the session that counts for the user is whole.
    CheckMember,
    /// Make the store of links.
    CreateStore,
    /// Back the session database up.
    Backup,
    /// Save the record.
    SavePrepared,
    /// See whether the file of the copy's body is there.
    CheckDest,
    /// Write the body of the copy.
    WriteBody,
    /// Read the body of the copy that was written.
    ReadBack,
    /// Save the record.
    SaveBody,
    /// Insert the copy's row.
    InsertRow,
    /// Look up the owner of the row that was inserted.
    VerifyRow,
    /// Save the record.
    SaveRow,
    /// Map the copy to the cloud.
    RegisterMapping,
    /// Save the record.
    SaveMapping,
    /// Put the copy down in the links.
    CommitLinks,
    /// Save the record.
    SaveLinks,
    /// Save the record.
    SaveCompleted,
    /// Remove old records; the copy is made whether that succeeds or not.
    Prune,
    /// Save the record with its error; the copy has failed whether that succeeds or not.
    SaveFailure,
    /// Nothing.
    Finished,
}

/// What was found, or how a step ended.
pub enum CopyEvent {
    Content(ContentState),
    Flag(bool),
    Owner(Option<String>),
    Store(StoreState),
    Inserted(Result<DbCopyOutcome, String>),
    /// The path of the backup, or the id of the group that the copy was put down in.
    Named(Result<String, String>),
    Done(Result<(), String>),
}

#[verifier::ext_equal]
pub enum CopyEventView {
    Content(ContentStateView),
    Flag(bool),
    Owner(Option<Seq<char>>),
    Store(StoreStateView),
    Inserted(Result<DbCopyOutcome, Seq<char>>),
    Named(Result<Seq<char>, Seq<char>>),
    Done(Result<(), Seq<char>>),
}

impl CopyEvent {
    pub open spec fn view(&self) -> CopyEventView {
        match self {
            CopyEvent::Content(c) => CopyEventView::Content(c@),
            CopyEvent::Flag(b) => CopyEventView::Flag(*b),
            CopyEvent::Owner(o) => CopyEventView::Owner(text::opt_text(*o)),
            CopyEvent::Store(s) => CopyEventView::Store(s@),
            CopyEvent::Inserted(r) => CopyEventView::Inserted(
                match r {
                    Ok(o) => Ok(*o),
                    Err(e) => Err(e@),
                },
            ),
            CopyEvent::Named(r) => CopyEventView::Named(
                match r {
                    Ok(g) => Ok(g@),
                    Err(e) => Err(e@),
                },
            ),
            CopyEvent::Done(r) => CopyEventView::Done(
                match r {
                    Ok(_) => Ok(()),
                    Err(e) => Err(e@),
                },
            ),
        }
    }
}

/// The ids that a copy may need.
pub struct CopyIds {
    pub session: String,
    pub operation: String,
    pub group: String,
}

#[verifier::ext_equal]
pub struct CopyIdsView {
    pub session: Seq<char>,
    pub operation: Seq<char>,
    pub group: Seq<char>,
}

impl CopyIds {
    pub open spec fn view(&self) -> CopyIdsView {
        CopyIdsView {
            session: self.session@,
            operation: self.operation@,
            group: self.group@,
        }
    }
}

/// A session that counts for the user in the group of the source.
pub struct Candidate {
    pub session_id: String,
    pub uid: String,
}

/// A copy that is being made.
pub struct SessionCopy {
    pub input: CopyInput,
    pub content: Option<NormalizedContent>,
    /// The group of the source, where it is in one.
    pub group_id: Option<String>,
    pub candidate: Option<Candidate>,
    pub operation: Option<Operation>,
    pub stage: CopyStage,
    pub result: Option<Result<CopyOutcome, String>>,
}

#[verifier::ext_equal]
pub struct CopyView {
    pub input: InputView,
    pub content: Option<ContentView>,
    pub group_id: Option<Seq<char>>,
    pub candidate: Option<(Seq<char>, Seq<char>)>,
    pub operation: Option<OperationView>,
    pub stage: CopyStage,
    pub result: Option<Result<CopyOutcomeView, Seq<char>>>,
}

pub open spec fn opt_operation(o: Option<Operation>) -> Option<OperationView> {
    match o {
        Some(x) => Some(x@),
        None => None,
    }
}

pub open spec fn opt_candidate(c: Option<Candidate>) -> Option<(Seq<char>, Seq<char>)> {
    match c {
        Some(x) => Some((x.session_id@, x.uid@)),
        None => None,
    }
}

// ---------------------------------------------------------------------------
// What follows what
// ---------------------------------------------------------------------------

pub open spec fn at(v: CopyView, stage: CopyStage) -> CopyView {
    CopyView { stage, ..v }
}

/// It ends here, before anything was put down.
pub open spec fn refused(v: CopyView, error: Seq<char>) -> CopyView {
    CopyView { stage: CopyStage::Finished, result: Some(Err(error)), ..v }
}

/// It ends here; the error is put down in the record.
pub open spec fn failed(v: CopyView, error: Seq<char>, now: i64) -> CopyView {
    CopyView {
        operation: match v.operation {
            Some(o) => Some(OperationView { last_error: Some(error), updated_at: now, ..o }),
            None => None,
        },
        stage: CopyStage::SaveFailure,
        result: Some(Err(error)),
        ..v
    }
}

/// The phase is reached, which is put down in the record.
pub open spec fn advanced(v: CopyView, phase: OpPhase, save: CopyStage, now: i64) -> CopyView {
    CopyView {
        operation: match v.operation {
            Some(o) => Some(session_link::phase_advanced(o, phase, now)),
            None => None,
        },
        stage: save,
        ..v
    }
}

/// The copy as it is begun, given the copies that are under way: one of the same request is not
/// begun again.
pub open spec fn begun(input: InputView, pending: Seq<OperationView>) -> CopyView {
    let v = CopyView {
        input,
        content: None,
        group_id: None,
        candidate: None,
        operation: None,
        stage: CopyStage::ReadSource,
        result: None,
    };
    match session_link::request_from(
        pending,
        input.source_uid,
        input.session_id,
        input.target_uid,
        0,
    ) {
        Some(i) => refused(
            v,
            "上一次复制尚未完成（操作 "@ + pending[i].operation_id + "）："@ + (
            match pending[i].last_error {
                Some(e) => e,
                None => "等待恢复"@,
            }) + "，本次未新建副本"@,
        ),
        None => v,
    }
}

/// After the source's body was read.
pub open spec fn source_read(v: CopyView, found: ContentStateView) -> CopyView {
    match found {
        ContentStateView::Ready(c) => CopyView {
            content: Some(c),
            stage: CopyStage::FindOwner,
            ..v
        },
        ContentStateView::Missing => refused(v, "会话正文不存在，未复制"@),
        ContentStateView::Unavailable(reason) => refused(
            v,
            "会话正文无法验证（"@ + reason + "），未复制"@,
        ),
    }
}

/// After the owner of the source's row was looked up.
pub open spec fn owner_found(v: CopyView, owner: Option<Seq<char>>) -> CopyView {
    match owner {
        Some(o) => if o == v.input.source_uid {
            at(v, CopyStage::LoadStore)
        } else {
            refused(v, "源会话不属于当前账号，未复制"@)
        },
        None => refused(v, "数据库中找不到源会话记录，未复制"@),
    }
}

/// After the store of links was loaded: where a session counts for the user in the group of the
/// source, it is to be looked at.
pub open spec fn store_loaded(v: CopyView, store: StoreStateView) -> CopyView {
    match store {
        StoreStateView::Missing => at(v, CopyStage::CreateStore),
        StoreStateView::Unavailable(reason) => refused(v, reason + "；已阻止复制"@),
        StoreStateView::Ready(s) => match session_link::identity_from(
            s.groups,
            v.input.variant,
            v.input.source_uid,
            v.input.session_id,
            0,
        ) {
            None => at(v, CopyStage::Backup),
            Some(g) => match session_link::active_from(
                s.groups[g].members,
                v.input.target_uid,
                0,
            ) {
                None => CopyView {
                    group_id: Some(s.groups[g].id),
                    stage: CopyStage::Backup,
                    ..v
                },
                Some(m) => CopyView {
                    group_id: Some(s.groups[g].id),
                    candidate: Some(
                        (s.groups[g].members[m].session_id, s.groups[g].members[m].uid),
                    ),
                    stage: CopyStage::CheckMember,
                    ..v
                },
            },
        },
    }
}

/// After the session that counts for the user was looked at: one that is whole is taken; for one
/// that is not, a copy is made in its place.
pub open spec fn member_checked(v: CopyView, valid: bool) -> CopyView {
    if valid {
        CopyView {
            stage: CopyStage::Finished,
            result: Some(
                Ok(
                    CopyOutcomeView::AlreadyLinked {
                        session_id: match v.candidate {
                            Some(c) => c.0,
                            None => seq![],
                        },
                        group_id: match v.group_id {
                            Some(g) => g,
                            None => seq![],
                        },
                    },
                ),
            ),
            ..v
        }
    } else {
        at(v, CopyStage::Backup)
    }
}

/// The record of the copy.
pub open spec fn new_operation(
    input: InputView,
    content: ContentView,
    group_id: Option<Seq<char>>,
    backup: Seq<char>,
    ids: CopyIdsView,
    now: i64,
) -> OperationView {
    OperationView {
        version: session_link::OPERATION_VERSION,
        operation_id: ids.operation,
        kind: "copy"@,
        variant: input.variant,
        group_id: match group_id {
            Some(g) => g,
            None => ids.group,
        },
        source: OperationMemberView {
            account_id: input.source_account_id,
            uid: input.source_uid,
            session_id: input.session_id,
        },
        target: OperationMemberView {
            account_id: input.target_account_id,
            uid: input.target_uid,
            session_id: ids.session,
        },
        expected_content_digest: content.total_digest,
        expected_record_count: content.record_count,
        phase: OpPhase::Prepared,
        backup: Some(backup),
        last_error: None,
        created_at: now,
        updated_at: now,
    }
}

/// After the session database was backed up: the record is made, with the id of the copy.
pub open spec fn backed_up(
    v: CopyView,
    r: Result<Seq<char>, Seq<char>>,
    ids: CopyIdsView,
    now: i64,
) -> CopyView {
    match r {
        Err(e) => refused(v, e),
        Ok(path) => match v.content {
            Some(c) => CopyView {
                operation: Some(new_operation(v.input, c, v.group_id, path, ids, now)),
                stage: CopyStage::SavePrepared,
                ..v
            },
            None => v,
        },
    }
}

/// After the insertion of the copy's row.
pub open spec fn row_inserted(
    v: CopyView,
    r: Result<DbCopyOutcome, Seq<char>>,
    now: i64,
) -> CopyView {
    match r {
        Ok(DbCopyOutcome::Inserted) => at(v, CopyStage::VerifyRow),
        Ok(DbCopyOutcome::SourceRowMissing) => failed(v, "数据库中找不到源会话记录，未复制"@, now),
        Ok(DbCopyOutcome::NoSessionsTable) => failed(
            v,
            "会话数据库缺少 sessions 表，未复制"@,
            now,
        ),
        Ok(DbCopyOutcome::NoDb) => failed(v, "会话数据库不存在，未复制"@, now),
        Err(e) => failed(v, e, now),
    }
}

/// After the copy was put down in the links.
pub open spec fn links_committed(v: CopyView, r: Result<Seq<char>, Seq<char>>, now: i64) -> CopyView {
    match r {
        Ok(group_id) => advanced(
            CopyView {
                operation: match v.operation {
                    Some(o) => Some(OperationView { group_id, ..o }),
                    None => None,
                },
                ..v
            },
            OpPhase::LinksCommitted,
            CopyStage::SaveLinks,
            now,
        ),
        Err(e) => failed(v, e, now),
    }
}

/// The copy is made.
pub open spec fn copied(v: CopyView) -> CopyView {
    CopyView {
        stage: CopyStage::Prune,
        result: match v.operation {
            Some(o) => Some(
                Ok(
                    CopyOutcomeView::Copied {
                        new_id: o.target.session_id,
                        group_id: o.group_id,
                        backup: match o.backup {
                            Some(b) => b,
                            None => seq![],
                        },
                    },
                ),
            ),
            None => None,
        },
        ..v
    }
}

/// After a step whose error is put down in the record.
pub open spec fn done(
    v: CopyView,
    r: Result<(), Seq<char>>,
    next: CopyView,
    now: i64,
) -> CopyView {
    match r {
        Ok(_) => next,
        Err(e) => failed(v, e, now),
    }
}

/// What follows an event. An event that does not belong to the step that is due changes nothing.
pub open spec fn copy_next(v: CopyView, e: CopyEventView, ids: CopyIdsView, now: i64) -> CopyView {
    match (v.stage, e) {
        (CopyStage::ReadSource, CopyEventView::Content(found)) => source_read(v, found),
        (CopyStage::FindOwner, CopyEventView::Owner(owner)) => owner_found(v, owner),
        (CopyStage::LoadStore, CopyEventView::Store(store)) => store_loaded(v, store),
        (CopyStage::CheckMember, CopyEventView::Flag(valid)) => member_checked(v, valid),
        (CopyStage::CreateStore, CopyEventView::Done(r)) => match r {
            Ok(_) => at(v, CopyStage::Backup),
            Err(e) => refused(v, e),
        },
        (CopyStage::Backup, CopyEventView::Named(r)) => backed_up(v, r, ids, now),
        (CopyStage::SavePrepared, CopyEventView::Done(r)) => match r {
            Ok(_) => at(v, CopyStage::CheckDest),
            Err(e) => refused(v, e),
        },
        (CopyStage::CheckDest, CopyEventView::Flag(exists)) => if exists {
            failed(v, "目标正文已存在同名文件，已停止复制"@, now)
        } else {
            at(v, CopyStage::WriteBody)
        },
        (CopyStage::WriteBody, CopyEventView::Done(r)) => match r {
            Ok(_) => at(v, CopyStage::ReadBack),
            Err(e) => failed(v, "副本正文写入失败："@ + e, now),
        },
        (CopyStage::ReadBack, CopyEventView::Content(found)) => match (
            v.content,
            v.operation,
        ) {
            (Some(c), Some(_)) => match session_recovery::body_complaint(found, c.total_digest) {
                Some(e) => failed(v, e, now),
                None => advanced(v, OpPhase::BodyWritten, CopyStage::SaveBody, now),
            },
            _ => v,
        },
        (CopyStage::SaveBody, CopyEventView::Done(r)) => done(
            v,
            r,
            at(v, CopyStage::InsertRow),
            now,
        ),
        (CopyStage::InsertRow, CopyEventView::Inserted(r)) => row_inserted(v, r, now),
        (CopyStage::VerifyRow, CopyEventView::Owner(owner)) => match session::owner_complaint(
            owner,
            v.input.target_uid,
        ) {
            Some(e) => failed(v, e, now),
            None => advanced(v, OpPhase::DbWritten, CopyStage::SaveRow, now),
        },
        (CopyStage::SaveRow, CopyEventView::Done(r)) => done(
            v,
            r,
            at(v, CopyStage::RegisterMapping),
            now,
        ),
        (CopyStage::RegisterMapping, CopyEventView::Done(r)) => done(
            v,
            r,
            advanced(v, OpPhase::MappingWritten, CopyStage::SaveMapping, now),
            now,
        ),
        (CopyStage::SaveMapping, CopyEventView::Done(r)) => done(
            v,
            r,
            at(v, CopyStage::CommitLinks),
            now,
        ),
        (CopyStage::CommitLinks, CopyEventView::Named(r)) => links_committed(v, r, now),
        (CopyStage::SaveLinks, CopyEventView::Done(r)) => done(
            v,
            r,
            advanced(v, OpPhase::Completed, CopyStage::SaveCompleted, now),
            now,
        ),
        (CopyStage::SaveCompleted, CopyEventView::Done(r)) => done(v, r, copied(v), now),
        (CopyStage::Prune, CopyEventView::Done(_)) => at(v, CopyStage::Finished),
        (CopyStage::SaveFailure, CopyEventView::Done(_)) => at(v, CopyStage::Finished),
        _ => v,
    }
}

// ---------------------------------------------------------------------------
// Taking the steps
// ---------------------------------------------------------------------------

/// Whether a session that counts for a user is whole: its body can be read, and its row is the
/// user's.
pub fn member_is_valid(body: &ContentState, owner: &Option<String>, uid: &str) -> (r: bool)
    ensures
        r == (body@ is Ready && text::opt_text(*owner) == Some(uid@)),
{
    let readable = match body {
        ContentState::Ready(_) => true,
        _ => false,
    };
    readable && match owner {
        Some(o) => text::same_text(o.as_str(), uid),
        None => false,
    }
}

impl SessionCopy {
    pub open spec fn view(&self) -> CopyView {
        CopyView {
            input: self.input@,
            content: opt_content(self.content),
            group_id: text::opt_text(self.group_id),
            candidate: opt_candidate(self.candidate),
            operation: opt_operation(self.operation),
            stage: self.stage,
            result: opt_result(self.result),
        }
    }

    /// Begins a copy, given the copies that are under way.
    pub fn new(input: CopyInput, pending: &Vec<Operation>) -> (r: SessionCopy)
        ensures
            r@ == begun(input@, session_link::operation_views(pending@)),
    {
        let found: Option<usize> = session_link::find_pending_operation(
            pending,
            input.source_uid.as_str(),
            input.session_id.as_str(),
            input.target_uid.as_str(),
        );
        let mut copy = SessionCopy {
            input,
            content: None,
            group_id: None,
            candidate: None,
            operation: None,
            stage: CopyStage::ReadSource,
            result: None,
        };
        match found {
            Some(i) => {
                assert(session_link::operation_views(pending@)[i as int] == pending@[i as int]@);
                let mut e = text::concat3(
                    "上一次复制尚未完成（操作 ",
                    pending[i].operation_id.as_str(),
                    "）：",
                );
                match &pending[i].last_error {
                    Some(last) => e.append(last.as_str()),
                    None => e.append("等待恢复"),
                }
                e.append("，本次未新建副本");
                copy.refuse(e);
            },
            None => {},
        }
        copy
    }

    fn refuse(&mut self, error: String)
        ensures
            final(self)@ == refused(old(self)@, error@),
    {
        self.result = Some(Err(error));
        self.stage = CopyStage::Finished;
    }

    fn fail(&mut self, error: String, now: i64)
        ensures
            final(self)@ == failed(old(self)@, error@, now),
    {
        match self.operation.take() {
            Some(mut o) => {
                o.last_error = Some(error.clone());
                o.updated_at = now;
                self.operation = Some(o);
            },
            None => {},
        }
        self.result = Some(Err(error));
        self.stage = CopyStage::SaveFailure;
    }

    fn advance(&mut self, phase: OpPhase, save: CopyStage, now: i64)
        ensures
            final(self)@ == advanced(old(self)@, phase, save, now),
    {
        match self.operation.take() {
            Some(mut o) => {
                session_link::advance_operation(&mut o, phase, now);
                self.operation = Some(o);
            },
            None => {},
        }
        self.stage = save;
    }

    fn take_source(&mut self, found: ContentState)
        ensures
            final(self)@ == source_read(old(self)@, found@),
    {
        match found {
            ContentState::Ready(c) => {
                self.content = Some(c);
                self.stage = CopyStage::FindOwner;
            },
            ContentState::Missing => {
                self.refuse("会话正文不存在，未复制".to_owned());
            },
            ContentState::Unavailable(reason) => {
                self.refuse(
                    text::concat3("会话正文无法验证（", reason.as_str(), "），未复制"),
                );
            },
        }
    }

    fn take_owner(&mut self, owner: Option<String>)
        ensures
            final(self)@ == owner_found(old(self)@, text::opt_text(owner)),
    {
        match owner {
            Some(o) => {
                if text::same_text(o.as_str(), self.input.source_uid.as_str()) {
                    self.stage = CopyStage::LoadStore;
                } else {
                    self.refuse("源会话不属于当前账号，未复制".to_owned());
                }
            },
            None => {
                self.refuse("数据库中找不到源会话记录，未复制".to_owned());
            },
        }
    }

    /// Looks for a session that counts for the user in the group of the source.
    fn resolve_target(&mut self, store: StoreState)
        ensures
            final(self)@ == store_loaded(old(self)@, store@),
    {
        match store {
            StoreState::Missing => {
                self.stage = CopyStage::CreateStore;
            },
            StoreState::Unavailable(reason) => {
                self.refuse(text::concat(reason.as_str(), "；已阻止复制"));
            },
            StoreState::Ready(s) => {
                match session_link::find_group_for_identity(
                    &s,
                    self.input.variant,
                    self.input.source_uid.as_str(),
                    self.input.session_id.as_str(),
                ) {
                    None => {
                        self.stage = CopyStage::Backup;
                    },
                    Some(g) => {
                        assert(s@.groups[g as int] == s.groups@[g as int]@);
                        self.group_id = Some(s.groups[g].id.clone());
                        match session_link::active_member_for(
                            &s.groups[g],
                            self.input.target_uid.as_str(),
                        ) {
                            None => {
                                self.stage = CopyStage::Backup;
                            },
                            Some(m) => {
                                let member = &s.groups[g].members[m];
                                assert(s@.groups[g as int].members[m as int] == member@);
                                self.candidate = Some(
                                    Candidate {
                                        session_id: member.session_id.clone(),
                                        uid: member.uid.clone(),
                                    },
                                );
                                self.stage = CopyStage::CheckMember;
                            },
                        }
                    },
                }
            },
        }
    }

    fn take_member(&mut self, valid: bool)
        ensures
            final(self)@ == member_checked(old(self)@, valid),
    {
        if !valid {
            self.stage = CopyStage::Backup;
            return;
        }
        let session_id = match &self.candidate {
            Some(c) => c.session_id.clone(),
            None => String::new(),
        };
        let group_id = match &self.group_id {
            Some(g) => g.clone(),
            None => String::new(),
        };
        self.result = Some(
            Ok(CopyOutcome::AlreadyLinked(LinkedSession { session_id, group_id })),
        );
        self.stage = CopyStage::Finished;
    }

    fn prepare(&mut self, r: Result<String, String>, ids: &CopyIds, now: i64)
        ensures
            final(self)@ == backed_up(
                old(self)@,
                match r {
                    Ok(p) => Ok(p@),
                    Err(e) => Err(e@),
                },
                ids@,
                now,
            ),
    {
        let path = match r {
            Ok(path) => path,
            Err(e) => {
                self.refuse(e);
                return;
            },
        };
        let group_id = match &self.group_id {
            Some(g) => g.clone(),
            None => ids.group.clone(),
        };
        match &self.content {
            Some(c) => {
                let operation = Operation {
                    version: session_link::OPERATION_VERSION,
                    operation_id: ids.operation.clone(),
                    kind: "copy".to_owned(),
                    variant: self.input.variant,
                    group_id,
                    source: OperationMember {
                        account_id: self.input.source_account_id.clone(),
                        uid: self.input.source_uid.clone(),
                        session_id: self.input.session_id.clone(),
                    },
                    target: OperationMember {
                        account_id: self.input.target_account_id.clone(),
                        uid: self.input.target_uid.clone(),
                        session_id: ids.session.clone(),
                    },
                    expected_content_digest: c.total_digest.clone(),
                    expected_record_count: c.record_count,
                    phase: OpPhase::Prepared,
                    backup: Some(path),
                    last_error: None,
                    created_at: now,
                    updated_at: now,
                };
                self.operation = Some(operation);
                self.stage = CopyStage::SavePrepared;
            },
            None => {},
        }
    }

    fn take_inserted(&mut self, r: Result<DbCopyOutcome, String>, now: i64)
        ensures
            final(self)@ == row_inserted(
                old(self)@,
                match r {
                    Ok(o) => Ok(o),
                    Err(e) => Err(e@),
                },
                now,
            ),
    {
        match r {
            Ok(DbCopyOutcome::Inserted) => {
                self.stage = CopyStage::VerifyRow;
            },
            Ok(DbCopyOutcome::SourceRowMissing) => {
                self.fail("数据库中找不到源会话记录，未复制".to_owned(), now);
            },
            Ok(DbCopyOutcome::NoSessionsTable) => {
                self.fail("会话数据库缺少 sessions 表，未复制".to_owned(), now);
            },
            Ok(DbCopyOutcome::NoDb) => {
                self.fail("会话数据库不存在，未复制".to_owned(), now);
            },
            Err(e) => {
                self.fail(e, now);
            },
        }
    }

    fn take_group(&mut self, r: Result<String, String>, now: i64)
        ensures
            final(self)@ == links_committed(
                old(self)@,
                match r {
                    Ok(g) => Ok(g@),
                    Err(e) => Err(e@),
                },
                now,
            ),
    {
        match r {
            Ok(group_id) => {
                match self.operation.take() {
                    Some(mut o) => {
                        o.group_id = group_id;
                        self.operation = Some(o);
                    },
                    None => {},
                }
                self.advance(OpPhase::LinksCommitted, CopyStage::SaveLinks, now);
            },
            Err(e) => {
                self.fail(e, now);
            },
        }
    }

    fn finish(&mut self)
        ensures
            final(self)@ == copied(old(self)@),
    {
        self.result = match &self.operation {
            Some(o) => {
                let backup = match &o.backup {
                    Some(b) => b.clone(),
                    None => String::new(),
                };
                Some(
                    Ok(
                        CopyOutcome::Copied(
                            CopiedSession {
                                new_id: o.target.session_id.clone(),
                                group_id: o.group_id.clone(),
                                backup,
                            },
                        ),
                    ),
                )
            },
            None => None,
        };
        self.stage = CopyStage::Prune;
    }

    /// Takes in what was found or how the step ended that was due, given the ids that are new.
    pub fn step_with(&mut self, event: CopyEvent, ids: &CopyIds, now: i64)
        ensures
            final(self)@ == copy_next(old(self)@, event@, ids@, now),
    {
        match (self.stage, event) {
            (CopyStage::ReadSource, CopyEvent::Content(found)) => {
                self.take_source(found);
            },
            (CopyStage::FindOwner, CopyEvent::Owner(owner)) => {
                self.take_owner(owner);
            },
            (CopyStage::LoadStore, CopyEvent::Store(store)) => {
                self.resolve_target(store);
            },
            (CopyStage::CheckMember, CopyEvent::Flag(valid)) => {
                self.take_member(valid);
            },
            (CopyStage::CreateStore, CopyEvent::Done(r)) => match r {
                Ok(_) => {
                    self.stage = CopyStage::Backup;
                },
                Err(e) => {
                    self.refuse(e);
                },
            },
            (CopyStage::Backup, CopyEvent::Named(r)) => {
                self.prepare(r, ids, now);
            },
            (CopyStage::SavePrepared, CopyEvent::Done(r)) => match r {
                Ok(_) => {
                    self.stage = CopyStage::CheckDest;
                },
                Err(e) => {
                    self.refuse(e);
                },
            },
            (CopyStage::CheckDest, CopyEvent::Flag(exists)) => {
                if exists {
                    self.fail("目标正文已存在同名文件，已停止复制".to_owned(), now);
                } else {
                    self.stage = CopyStage::WriteBody;
                }
            },
            (CopyStage::WriteBody, CopyEvent::Done(r)) => match r {
                Ok(_) => {
                    self.stage = CopyStage::ReadBack;
                },
                Err(e) => {
                    self.fail(text::concat("副本正文写入失败：", e.as_str()), now);
                },
            },
            (CopyStage::ReadBack, CopyEvent::Content(found)) => {
                let complaint: Option<Option<String>> = match (&self.content, &self.operation) {
                    (Some(c), Some(_)) => Some(
                        session_recovery::verify_written_body(&found, c.total_digest.as_str()),
                    ),
                    _ => None,
                };
                match complaint {
                    Some(Some(e)) => {
                        self.fail(e, now);
                    },
                    Some(None) => {
                        self.advance(OpPhase::BodyWritten, CopyStage::SaveBody, now);
                    },
                    None => {},
                }
            },
            (CopyStage::InsertRow, CopyEvent::Inserted(r)) => {
                self.take_inserted(r, now);
            },
            (CopyStage::VerifyRow, CopyEvent::Owner(owner)) => {
                match session::verify_session_row(&owner, self.input.target_uid.as_str()) {
                    Ok(_) => {
                        self.advance(OpPhase::DbWritten, CopyStage::SaveRow, now);
                    },
                    Err(e) => {
                        self.fail(e, now);
                    },
                }
            },
            (CopyStage::CommitLinks, CopyEvent::Named(r)) => {
                self.take_group(r, now);
            },
            (CopyStage::Prune, CopyEvent::Done(_)) => {
                self.stage = CopyStage::Finished;
            },
            (CopyStage::SaveFailure, CopyEvent::Done(_)) => {
                self.stage = CopyStage::Finished;
            },
            (_, CopyEvent::Done(r)) => {
                self.take_done(r, ids, now);
            },
            _ => {},
        }
    }

    fn take_done(&mut self, r: Result<(), String>, ids: &CopyIds, now: i64)
        requires
            !(old(self).stage is CreateStore || old(self).stage is SavePrepared || old(
                self,
            ).stage is WriteBody || old(self).stage is Prune || old(self).stage is SaveFailure),
        ensures
            final(self)@ == copy_next(
                old(self)@,
                CopyEventView::Done(
                    match r {
                        Ok(_) => Ok(()),
                        Err(e) => Err(e@),
                    },
                ),
                ids@,
                now,
            ),
    {
        match self.stage {
            CopyStage::SaveBody | CopyStage::SaveRow | CopyStage::RegisterMapping
            | CopyStage::SaveMapping | CopyStage::SaveLinks | CopyStage::SaveCompleted => {},
            _ => {
                return;
            },
        }
        match r {
            Err(e) => {
                self.fail(e, now);
            },
            Ok(_) => match self.stage {
                CopyStage::SaveBody => {
                    self.stage = CopyStage::InsertRow;
                },
                CopyStage::SaveRow => {
                    self.stage = CopyStage::RegisterMapping;
                },
                CopyStage::RegisterMapping => {
                    self.advance(OpPhase::MappingWritten, CopyStage::SaveMapping, now);
                },
                CopyStage::SaveMapping => {
                    self.stage = CopyStage::CommitLinks;
                },
                CopyStage::SaveLinks => {
                    self.advance(OpPhase::Completed, CopyStage::SaveCompleted, now);
                },
                CopyStage::SaveCompleted => {
                    self.finish();
                },
                _ => {},
            },
        }
    }

    /// Takes in what was found or how the step ended that was due. Ids that are needed are new.
    pub fn step(&mut self, event: CopyEvent, now: i64)
        ensures
            exists|ids: CopyIdsView|
                is_uuid(ids.session) && is_uuid(ids.operation) && is_uuid(ids.group)
                    && final(self)@ == #[trigger] copy_next(old(self)@, event@, ids, now),
    {
        let ids = CopyIds {
            session: session_link::new_id(),
            operation: session_link::new_id(),
            group: session_link::new_id(),
        };
        let ghost i = ids@;
        self.step_with(event, &ids, now);
        assert(is_uuid(i.session) && is_uuid(i.operation) && is_uuid(i.group));
    }
}

// ---------------------------------------------------------------------------
// Laws
// ---------------------------------------------------------------------------

/// The stage is one in which something of the copy is written.
pub open spec fn writes_copy(stage: CopyStage) -> bool {
    match stage {
        CopyStage::WriteBody | CopyStage::InsertRow | CopyStage::RegisterMapping
        | CopyStage::CommitLinks => true,
        _ => false,
    }
}

/// Whether the record was saved before the stage.
pub open spec fn is_recorded(stage: CopyStage) -> bool {
    match stage {
        CopyStage::ReadSource | CopyStage::FindOwner | CopyStage::LoadStore
        | CopyStage::CheckMember | CopyStage::CreateStore | CopyStage::Backup
        | CopyStage::SavePrepared => false,
        _ => true,
    }
}

/// What holds at each stage: the record is there, with the id of the copy, from the time on at
/// which something is written, its phase tells what was written, and a result stands at the end
/// alone: a copy counts as made only when it is complete.
pub open spec fn in_order(v: CopyView) -> bool {
    &&& writes_copy(v.stage) ==> v.operation is Some && v.content is Some
    &&& v.operation matches Some(o) ==> o.source.uid == v.input.source_uid && o.source.session_id
        == v.input.session_id && o.target.uid == v.input.target_uid
    &&& match v.stage {
        CopyStage::ReadSource => v.operation is None && v.result is None,
        CopyStage::FindOwner | CopyStage::LoadStore | CopyStage::CheckMember
        | CopyStage::CreateStore | CopyStage::Backup => v.content is Some && v.operation is None
            && v.result is None,
        CopyStage::SavePrepared | CopyStage::CheckDest | CopyStage::WriteBody
        | CopyStage::ReadBack => at_phase(v, OpPhase::Prepared),
        CopyStage::SaveBody | CopyStage::InsertRow | CopyStage::VerifyRow => at_phase(
            v,
            OpPhase::BodyWritten,
        ),
        CopyStage::SaveRow | CopyStage::RegisterMapping => at_phase(v, OpPhase::DbWritten),
        CopyStage::SaveMapping | CopyStage::CommitLinks => at_phase(v, OpPhase::MappingWritten),
        CopyStage::SaveLinks => at_phase(v, OpPhase::LinksCommitted),
        CopyStage::SaveCompleted => at_phase(v, OpPhase::Completed),
        CopyStage::Prune => v.operation is Some && v.operation->0.phase == OpPhase::Completed,
        CopyStage::SaveFailure => v.operation is Some && v.result is Some && v.result->0 is Err,
        CopyStage::Finished => match v.result {
            Some(Ok(CopyOutcomeView::Copied { new_id, .. })) => v.operation is Some
                && v.operation->0.phase == OpPhase::Completed
                && v.operation->0.target.session_id == new_id,
            Some(Ok(CopyOutcomeView::AlreadyLinked { .. })) => v.operation is None,
            Some(Err(_)) => true,
            None => false,
        },
    }
    &&& v.stage == CopyStage::Prune ==> v.result == copied(v).result
}

/// A record of the phase is there, and there is no result yet.
pub open spec fn at_phase(v: CopyView, phase: OpPhase) -> bool {
    &&& v.content is Some
    &&& v.result is None
    &&& v.operation matches Some(o) && o.phase == phase
}

/// Nothing of a copy is written before the record with its id is saved, each part is written in
/// its turn, and a copy counts as made only when all of it is there.
pub proof fn law_copy_is_in_order(
    input: InputView,
    pending: Seq<OperationView>,
    v: CopyView,
    e: CopyEventView,
    ids: CopyIdsView,
    now: i64,
)
    ensures
        in_order(begun(input, pending)),
        in_order(v) ==> in_order(copy_next(v, e, ids, now)),
        in_order(v) && writes_copy(copy_next(v, e, ids, now).stage) ==> is_recorded(v.stage),
{
}

/// A request whose copy is still under way is not begun a second time.
pub proof fn law_pending_copy_is_not_begun_again(
    input: InputView,
    pending: Seq<OperationView>,
    i: int,
)
    requires
        0 <= i < pending.len(),
        session_link::is_of_request(
            pending[i],
            input.source_uid,
            input.session_id,
            input.target_uid,
        ),
    ensures
        begun(input, pending).stage == CopyStage::Finished,
        begun(input, pending).result matches Some(Err(_)),
{
    lemma_request_found(pending, input.source_uid, input.session_id, input.target_uid, 0, i);
}

proof fn lemma_request_found(
    pending: Seq<OperationView>,
    source_uid: Seq<char>,
    session_id: Seq<char>,
    target_uid: Seq<char>,
    from: int,
    i: int,
)
    requires
        0 <= from <= i < pending.len(),
        session_link::is_of_request(pending[i], source_uid, session_id, target_uid),
    ensures
        session_link::request_from(pending, source_uid, session_id, target_uid, from) is Some,
    decreases pending.len() - from,
{
    if !session_link::is_of_request(pending[from], source_uid, session_id, target_uid) {
        lemma_request_found(pending, source_uid, session_id, target_uid, from + 1, i);
    }
}

/// Once the record is made, the id of the copy and the two sides of it stay the same.
pub proof fn law_copy_keeps_its_id(v: CopyView, e: CopyEventView, ids: CopyIdsView, now: i64)
    requires
        in_order(v),
        v.operation is Some,
    ensures
        copy_next(v, e, ids, now).operation matches Some(o) && o.target == v.operation->0.target
            && o.source == v.operation->0.source && o.operation_id
            == v.operation->0.operation_id && phase_rank(o.phase) >= phase_rank(
            v.operation->0.phase,
        ),
{
}

/// Where a session that is whole counts for the user, it is taken, and nothing is written.
pub proof fn law_whole_copy_is_taken(
    v: CopyView,
    store: session_link::StoreView,
    ids: CopyIdsView,
    now: i64,
    session_id: Seq<char>,
)
    requires
        v.stage == CopyStage::LoadStore,
        session_link::counterpart(
            store,
            v.input.variant,
            v.input.source_uid,
            v.input.session_id,
            v.input.target_uid,
        ) == Some(session_id),
    ensures
        ({
            let loaded = copy_next(
                v,
                CopyEventView::Store(StoreStateView::Ready(store)),
                ids,
                now,
            );
            let taken = copy_next(loaded, CopyEventView::Flag(true), ids, now);
            &&& loaded.stage == CopyStage::CheckMember
            &&& loaded.candidate matches Some(c) && c.0 == session_id
            &&& taken.stage == CopyStage::Finished
            &&& taken.result matches Some(Ok(CopyOutcomeView::AlreadyLinked { session_id: s, .. }))
                && s == session_id
            &&& taken.operation == v.operation
        }),
{
}

/// The place of a stage on the way.
pub open spec fn steps_left(stage: CopyStage) -> nat {
    match stage {
        CopyStage::ReadSource => 21,
        CopyStage::FindOwner => 20,
        CopyStage::LoadStore => 19,
        CopyStage::CheckMember => 18,
        CopyStage::CreateStore => 17,
        CopyStage::Backup => 16,
        CopyStage::SavePrepared => 15,
        CopyStage::CheckDest => 14,
        CopyStage::WriteBody => 13,
        CopyStage::ReadBack => 12,
        CopyStage::SaveBody => 11,
        CopyStage::InsertRow => 10,
        CopyStage::VerifyRow => 9,
        CopyStage::SaveRow => 8,
        CopyStage::RegisterMapping => 7,
        CopyStage::SaveMapping => 6,
        CopyStage::CommitLinks => 5,
        CopyStage::SaveLinks => 4,
        CopyStage::SaveCompleted => 3,
        CopyStage::Prune => 2,
        CopyStage::SaveFailure => 1,
        CopyStage::Finished => 0,
    }
}

/// A copy comes to an end: each event that belongs to the step that is due leaves fewer steps.
pub proof fn law_copy_ends(v: CopyView, e: CopyEventView, ids: CopyIdsView, now: i64)
    ensures
        copy_next(v, e, ids, now) == v || steps_left(copy_next(v, e, ids, now).stage)
            < steps_left(v.stage),
{
}

/// The copy ends at once with the complaint, and nothing else of it changes.
pub open spec fn ends_with(v: CopyView, w: CopyView, error: Seq<char>) -> bool {
    w == (CopyView { stage: CopyStage::Finished, result: Some(Err(error)), ..v })
}

/// The copy fails with the complaint, which the record `o` is to be saved with.
pub open spec fn fails_with(
    v: CopyView,
    w: CopyView,
    o: OperationView,
    error: Seq<char>,
    now: i64,
) -> bool {
    w == (CopyView {
        operation: Some(OperationView { last_error: Some(error), updated_at: now, ..o }),
        stage: CopyStage::SaveFailure,
        result: Some(Err(error)),
        ..v
    })
}

/// The phase is reached, and the record `o` is to be saved with it.
pub open spec fn reaches(
    v: CopyView,
    w: CopyView,
    o: OperationView,
    phase: OpPhase,
    stage: CopyStage,
    now: i64,
) -> bool {
    w == (CopyView {
        operation: Some(OperationView { phase, updated_at: now, ..o }),
        stage,
        ..v
    })
}

/// A copy is begun with what is asked for and nothing else, unless a copy of the same session from
/// the same user for the same user is still under way: then the first such is told of, with its
/// last error where it has one.
pub proof fn law_copy_is_begun_as_asked_for(
    input: InputView,
    pending: Seq<OperationView>,
    i: int,
)
    ensures
        (forall|j: int|
            0 <= j < pending.len() ==> !((#[trigger] pending[j]).source.uid == input.source_uid
                && pending[j].source.session_id == input.session_id && pending[j].target.uid
                == input.target_uid)) ==> begun(input, pending) == (CopyView {
            input,
            content: None,
            group_id: None,
            candidate: None,
            operation: None,
            stage: CopyStage::ReadSource,
            result: None,
        }),
        0 <= i < pending.len() && pending[i].source.uid == input.source_uid
            && pending[i].source.session_id == input.session_id && pending[i].target.uid
            == input.target_uid && (forall|j: int|
            0 <= j < i ==> !((#[trigger] pending[j]).source.uid == input.source_uid
                && pending[j].source.session_id == input.session_id && pending[j].target.uid
                == input.target_uid)) ==> {
            let v = begun(input, pending);
            &&& v.input == input
            &&& v.stage == CopyStage::Finished
            &&& v.operation is None
            &&& v.result == Some(
                Err::<CopyOutcomeView, Seq<char>>(
                    "上一次复制尚未完成（操作 "@ + pending[i].operation_id + "）："@ + (
                    match pending[i].last_error {
                        Some(e) => e,
                        None => "等待恢复"@,
                    }) + "，本次未新建副本"@,
                ),
            )
        },
{
    session_link::law_record_is_found_by_its_request(
        pending,
        input.source_uid,
        input.session_id,
        input.target_uid,
        0,
    );
}

/// Only a session whose body can be read and whose row is the source's own is copied; any other
/// request is refused with the reason.
pub proof fn law_only_an_own_readable_session_is_copied(
    v: CopyView,
    content: ContentView,
    reason: Seq<char>,
    owner: Option<Seq<char>>,
    ids: CopyIdsView,
    now: i64,
)
    ensures
        v.stage == CopyStage::ReadSource ==> {
            &&& copy_next(
                v,
                CopyEventView::Content(ContentStateView::Ready(content)),
                ids,
                now,
            ) == (CopyView { content: Some(content), stage: CopyStage::FindOwner, ..v })
            &&& ends_with(
                v,
                copy_next(v, CopyEventView::Content(ContentStateView::Missing), ids, now),
                "会话正文不存在，未复制"@,
            )
            &&& ends_with(
                v,
                copy_next(
                    v,
                    CopyEventView::Content(ContentStateView::Unavailable(reason)),
                    ids,
                    now,
                ),
                "会话正文无法验证（"@ + reason + "），未复制"@,
            )
        },
        v.stage == CopyStage::FindOwner ==> {
            let w = copy_next(v, CopyEventView::Owner(owner), ids, now);
            &&& owner == Some(v.input.source_uid) ==> w == (CopyView {
                stage: CopyStage::LoadStore,
                ..v
            })
            &&& owner is Some && owner->0 != v.input.source_uid ==> ends_with(
                v,
                w,
                "源会话不属于当前账号，未复制"@,
            )
            &&& owner is None ==> ends_with(v, w, "数据库中找不到源会话记录，未复制"@)
        },
{
}

/// Where there are no links yet, they are made first; where they cannot be read, nothing is
/// copied.
pub proof fn law_links_are_needed(
    v: CopyView,
    reason: Seq<char>,
    ids: CopyIdsView,
    now: i64,
)
    ensures
        v.stage == CopyStage::LoadStore ==> {
            &&& copy_next(v, CopyEventView::Store(StoreStateView::Missing), ids, now) == (CopyView {
                stage: CopyStage::CreateStore,
                ..v
            })
            &&& ends_with(
                v,
                copy_next(
                    v,
                    CopyEventView::Store(StoreStateView::Unavailable(reason)),
                    ids,
                    now,
                ),
                reason + "；已阻止复制"@,
            )
        },
        v.stage == CopyStage::CreateStore ==> {
            &&& copy_next(v, CopyEventView::Done(Ok(())), ids, now) == (CopyView {
                stage: CopyStage::Backup,
                ..v
            })
            &&& ends_with(v, copy_next(v, CopyEventView::Done(Err(reason)), ids, now), reason)
        },
{
}

/// A session in no group of its edition is copied into a new one; a session in a group that holds
/// none that counts for the target's user is copied into that group; and of one that holds such a
/// session it is first seen whether that is whole.
pub proof fn law_copy_joins_the_group_of_its_source(
    v: CopyView,
    store: session_link::StoreView,
    ids: CopyIdsView,
    now: i64,
    g: int,
)
    requires
        v.stage == CopyStage::LoadStore,
    ensures
        ({
            let w = copy_next(v, CopyEventView::Store(StoreStateView::Ready(store)), ids, now);
            let found = session_link::identity_from(
                store.groups,
                v.input.variant,
                v.input.source_uid,
                v.input.session_id,
                0,
            );
            &&& found is None ==> w == (CopyView { stage: CopyStage::Backup, ..v })
            &&& found == Some(g) && (forall|i: int|
                0 <= i < store.groups[g].members.len() ==> !((
                #[trigger] store.groups[g].members[i]).uid == v.input.target_uid
                    && store.groups[g].members[i].state == session_link::MemberState::Active)) ==> w
                == (CopyView {
                group_id: Some(store.groups[g].id),
                stage: CopyStage::Backup,
                ..v
            })
            &&& found == Some(g) && (exists|i: int|
                0 <= i < store.groups[g].members.len() && (
                #[trigger] store.groups[g].members[i]).uid == v.input.target_uid
                    && store.groups[g].members[i].state == session_link::MemberState::Active) ==> {
                &&& w.stage == CopyStage::CheckMember
                &&& w.group_id == Some(store.groups[g].id)
                &&& w.candidate is Some
                &&& exists|i: int|
                    0 <= i < store.groups[g].members.len() && (
                    #[trigger] store.groups[g].members[i]).uid == v.input.target_uid
                        && store.groups[g].members[i].state == session_link::MemberState::Active
                        && w.candidate == Some(
                        (store.groups[g].members[i].session_id, v.input.target_uid),
                    )
                &&& w.operation == v.operation
                &&& w.result == v.result
                &&& w.content == v.content
            }
        }),
{
    if session_link::identity_from(
        store.groups,
        v.input.variant,
        v.input.source_uid,
        v.input.session_id,
        0,
    ) == Some(g) {
        let members = store.groups[g].members;
        session_link::lemma_active_from(members, v.input.target_uid, 0);
        match session_link::active_from(members, v.input.target_uid, 0) {
            Some(i) => {
                assert(store.groups[g].members[i].uid == v.input.target_uid);
            },
            None => {},
        }
    }
}

/// A session that is whole is named as the user's, with its group; for one that is not, a copy is
/// made in the same group.
pub proof fn law_broken_copy_is_made_anew(
    v: CopyView,
    session_id: Seq<char>,
    uid: Seq<char>,
    group_id: Seq<char>,
    ids: CopyIdsView,
    now: i64,
)
    requires
        v.stage == CopyStage::CheckMember,
        v.candidate == Some((session_id, uid)),
        v.group_id == Some(group_id),
    ensures
        copy_next(v, CopyEventView::Flag(true), ids, now) == (CopyView {
            stage: CopyStage::Finished,
            result: Some(Ok(CopyOutcomeView::AlreadyLinked { session_id, group_id })),
            ..v
        }),
        copy_next(v, CopyEventView::Flag(false), ids, now) == (CopyView {
            stage: CopyStage::Backup,
            ..v
        }),
{
}

/// The record of a copy holds what was asked for, the ids that were drawn, the backup and what the
/// source's body holds; the group is the source's where it has one. A backup that cannot be had
/// ends the copy with nothing written.
pub proof fn law_record_holds_what_was_asked_for(
    v: CopyView,
    content: ContentView,
    backup: Seq<char>,
    error: Seq<char>,
    ids: CopyIdsView,
    now: i64,
)
    requires
        v.stage == CopyStage::Backup,
        v.content == Some(content),
    ensures
        ends_with(v, copy_next(v, CopyEventView::Named(Err(error)), ids, now), error),
        ({
            let w = copy_next(v, CopyEventView::Named(Ok(backup)), ids, now);
            &&& w == (CopyView {
                operation: w.operation,
                stage: CopyStage::SavePrepared,
                ..v
            })
            &&& w.operation matches Some(o) && {
                &&& o.version == 1
                &&& o.operation_id == ids.operation
                &&& o.kind == "copy"@
                &&& o.variant == v.input.variant
                &&& v.group_id is Some ==> o.group_id == v.group_id->0
                &&& v.group_id is None ==> o.group_id == ids.group
                &&& o.source.account_id == v.input.source_account_id
                &&& o.source.uid == v.input.source_uid
                &&& o.source.session_id == v.input.session_id
                &&& o.target.account_id == v.input.target_account_id
                &&& o.target.uid == v.input.target_uid
                &&& o.target.session_id == ids.session
                &&& o.expected_content_digest == content.total_digest
                &&& o.expected_record_count == content.record_count
                &&& o.phase == OpPhase::Prepared
                &&& o.backup == Some(backup)
                &&& o.last_error is None
                &&& o.created_at == now
                &&& o.updated_at == now
            }
        }),
{
}

/// Nothing is written before the record is saved; a record that cannot be saved then ends the copy
/// with nothing written.
pub proof fn law_record_comes_first(v: CopyView, error: Seq<char>, ids: CopyIdsView, now: i64)
    requires
        v.stage == CopyStage::SavePrepared,
    ensures
        copy_next(v, CopyEventView::Done(Ok(())), ids, now) == (CopyView {
            stage: CopyStage::CheckDest,
            ..v
        }),
        ends_with(v, copy_next(v, CopyEventView::Done(Err(error)), ids, now), error),
{
}

/// The body is written only where no file is in its place, is read back, and counts as written
/// only where it holds what the source's held.
pub proof fn law_written_body_is_checked(
    v: CopyView,
    o: OperationView,
    content: ContentView,
    found: ContentView,
    error: Seq<char>,
    ids: CopyIdsView,
    now: i64,
)
    requires
        v.operation == Some(o),
        v.content == Some(content),
        o.phase == OpPhase::Prepared,
    ensures
        v.stage == CopyStage::CheckDest ==> {
            &&& fails_with(
                v,
                copy_next(v, CopyEventView::Flag(true), ids, now),
                o,
                "目标正文已存在同名文件，已停止复制"@,
                now,
            )
            &&& copy_next(v, CopyEventView::Flag(false), ids, now) == (CopyView {
                stage: CopyStage::WriteBody,
                ..v
            })
        },
        v.stage == CopyStage::WriteBody ==> {
            &&& copy_next(v, CopyEventView::Done(Ok(())), ids, now) == (CopyView {
                stage: CopyStage::ReadBack,
                ..v
            })
            &&& fails_with(
                v,
                copy_next(v, CopyEventView::Done(Err(error)), ids, now),
                o,
                "副本正文写入失败："@ + error,
                now,
            )
        },
        v.stage == CopyStage::ReadBack ==> {
            let w = copy_next(v, CopyEventView::Content(ContentStateView::Ready(found)), ids, now);
            &&& found.total_digest == content.total_digest ==> reaches(
                v,
                w,
                o,
                OpPhase::BodyWritten,
                CopyStage::SaveBody,
                now,
            )
            &&& found.total_digest != content.total_digest ==> fails_with(
                v,
                w,
                o,
                "副本正文写后校验不一致，未报告成功"@,
                now,
            )
            &&& fails_with(
                v,
                copy_next(v, CopyEventView::Content(ContentStateView::Missing), ids, now),
                o,
                "副本正文写入后不存在，未报告成功"@,
                now,
            )
            &&& fails_with(
                v,
                copy_next(
                    v,
                    CopyEventView::Content(ContentStateView::Unavailable(error)),
                    ids,
                    now,
                ),
                o,
                "副本正文写后无法验证："@ + error,
                now,
            )
        },
{
}

/// The row counts as written only where it was inserted and is found to be the target's; each way
/// in which that fails is told.
pub proof fn law_written_row_is_checked(
    v: CopyView,
    o: OperationView,
    owner: Seq<char>,
    error: Seq<char>,
    ids: CopyIdsView,
    now: i64,
)
    requires
        v.operation == Some(o),
        o.phase == OpPhase::BodyWritten,
    ensures
        v.stage == CopyStage::InsertRow ==> {
            &&& copy_next(
                v,
                CopyEventView::Inserted(Ok(DbCopyOutcome::Inserted)),
                ids,
                now,
            ) == (CopyView { stage: CopyStage::VerifyRow, ..v })
            &&& fails_with(
                v,
                copy_next(
                    v,
                    CopyEventView::Inserted(Ok(DbCopyOutcome::SourceRowMissing)),
                    ids,
                    now,
                ),
                o,
                "数据库中找不到源会话记录，未复制"@,
                now,
            )
            &&& fails_with(
                v,
                copy_next(
                    v,
                    CopyEventView::Inserted(Ok(DbCopyOutcome::NoSessionsTable)),
                    ids,
                    now,
                ),
                o,
                "会话数据库缺少 sessions 表，未复制"@,
                now,
            )
            &&& fails_with(
                v,
                copy_next(v, CopyEventView::Inserted(Ok(DbCopyOutcome::NoDb)), ids, now),
                o,
                "会话数据库不存在，未复制"@,
                now,
            )
            &&& fails_with(
                v,
                copy_next(v, CopyEventView::Inserted(Err(error)), ids, now),
                o,
                error,
                now,
            )
        },
        v.stage == CopyStage::VerifyRow ==> {
            &&& reaches(
                v,
                copy_next(v, CopyEventView::Owner(Some(v.input.target_uid)), ids, now),
                o,
                OpPhase::DbWritten,
                CopyStage::SaveRow,
                now,
            )
            &&& owner != v.input.target_uid ==> fails_with(
                v,
                copy_next(v, CopyEventView::Owner(Some(owner)), ids, now),
                o,
                "会话行归属校验失败：期望 "@ + v.input.target_uid + "，实际 "@ + owner,
                now,
            )
            &&& fails_with(
                v,
                copy_next(v, CopyEventView::Owner(None), ids, now),
                o,
                "会话行写入后不可见，未报告成功"@,
                now,
            )
        },
{
}

/// After the row the copy is mapped, and after that put down in the links, under the group that it
/// was put down in.
pub proof fn law_copy_is_mapped_and_linked(
    v: CopyView,
    o: OperationView,
    group_id: Seq<char>,
    error: Seq<char>,
    ids: CopyIdsView,
    now: i64,
)
    requires
        v.operation == Some(o),
    ensures
        v.stage == CopyStage::RegisterMapping && o.phase == OpPhase::DbWritten ==> reaches(
            v,
            copy_next(v, CopyEventView::Done(Ok(())), ids, now),
            o,
            OpPhase::MappingWritten,
            CopyStage::SaveMapping,
            now,
        ),
        v.stage == CopyStage::RegisterMapping ==> fails_with(
            v,
            copy_next(v, CopyEventView::Done(Err(error)), ids, now),
            o,
            error,
            now,
        ),
        v.stage == CopyStage::CommitLinks && o.phase == OpPhase::MappingWritten ==> reaches(
            v,
            copy_next(v, CopyEventView::Named(Ok(group_id)), ids, now),
            OperationView { group_id, ..o },
            OpPhase::LinksCommitted,
            CopyStage::SaveLinks,
            now,
        ),
        v.stage == CopyStage::CommitLinks ==> fails_with(
            v,
            copy_next(v, CopyEventView::Named(Err(error)), ids, now),
            o,
            error,
            now,
        ),
{
}

/// Each phase is saved before the next step; a record that cannot be saved fails the copy. When
/// the last phase is saved, the copy is made, and is named with its id, its group and its backup.
pub proof fn law_each_phase_is_saved(
    v: CopyView,
    o: OperationView,
    backup: Seq<char>,
    error: Seq<char>,
    ids: CopyIdsView,
    now: i64,
)
    requires
        v.operation == Some(o),
        o.backup == Some(backup),
    ensures
        v.stage == CopyStage::SaveBody || v.stage == CopyStage::SaveRow || v.stage
            == CopyStage::SaveMapping || v.stage == CopyStage::SaveLinks || v.stage
            == CopyStage::SaveCompleted ==> fails_with(
            v,
            copy_next(v, CopyEventView::Done(Err(error)), ids, now),
            o,
            error,
            now,
        ),
        ({
            let w = copy_next(v, CopyEventView::Done(Ok(())), ids, now);
            &&& v.stage == CopyStage::SaveBody ==> w == (CopyView {
                stage: CopyStage::InsertRow,
                ..v
            })
            &&& v.stage == CopyStage::SaveRow ==> w == (CopyView {
                stage: CopyStage::RegisterMapping,
                ..v
            })
            &&& v.stage == CopyStage::SaveMapping ==> w == (CopyView {
                stage: CopyStage::CommitLinks,
                ..v
            })
            &&& v.stage == CopyStage::SaveLinks && o.phase == OpPhase::LinksCommitted ==> reaches(
                v,
                w,
                o,
                OpPhase::Completed,
                CopyStage::SaveCompleted,
                now,
            )
            &&& v.stage == CopyStage::SaveCompleted ==> w == (CopyView {
                stage: CopyStage::Prune,
                result: Some(
                    Ok(
                        CopyOutcomeView::Copied {
                            new_id: o.target.session_id,
                            group_id: o.group_id,
                            backup,
                        },
                    ),
                ),
                ..v
            })
        }),
{
}

/// A result stands once there is one: what is cleared up or saved after it changes nothing of it.
/// An event that no step waits for changes nothing, and what was asked for never changes.
pub proof fn law_result_stands(v: CopyView, e: CopyEventView, ids: CopyIdsView, now: i64)
    ensures
        copy_next(v, e, ids, now).input == v.input,
        (v.stage == CopyStage::Prune || v.stage == CopyStage::SaveFailure) && e is Done
            ==> copy_next(v, e, ids, now) == (CopyView { stage: CopyStage::Finished, ..v }),
        copy_next(v, e, ids, now) != v ==> match v.stage {
            CopyStage::ReadSource | CopyStage::ReadBack => e is Content,
            CopyStage::FindOwner | CopyStage::VerifyRow => e is Owner,
            CopyStage::LoadStore => e is Store,
            CopyStage::CheckMember | CopyStage::CheckDest => e is Flag,
            CopyStage::Backup | CopyStage::CommitLinks => e is Named,
            CopyStage::InsertRow => e is Inserted,
            CopyStage::Finished => false,
            _ => e is Done,
        },
{
}

} // verus!
