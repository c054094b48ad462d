//! Bringing copies of sessions to an end that were broken off.
//!
//! What is there decides on the next step, not the record alone: a step that was taken is not
//! taken again, and what was changed or lost in between is not written over.

use vstd::multiset::Multiset;
use vstd::prelude::*;

use crate::session;
use crate::session_link;
use crate::session::DbCopyOutcome;
use crate::session_link::phase_rank;
use crate::session_link::unfinished;
use crate::session_link::ContentState;
use crate::session_link::ContentStateView;
use crate::session_link::ContentView;
use crate::session_link::IssueView;
use crate::session_link::NormalizedContent;
use crate::session_link::OpPhase;
use crate::session_link::Operation;
use crate::session_link::OperationView;
use crate::session_link::RecoveryIssue;
use crate::session_link::RecoveryReport;
use crate::session_link::ReportView;
use crate::text;

verus! {

/// How the complaint about a record that cannot be read begins.
pub const UNPARSEABLE_OPERATION_REASON: &'static str = "操作记录无法解析";

/// The words that are put down with a copy that is given up.
pub const ABANDONED_REASON: &'static str = "源会话已不可用，且未写入任何副本，已放弃该操作";

/// What became of a copy that was broken off.
#[derive(Debug, PartialEq, Eq)]
pub enum RecoverOutcome {
    Recovered(String),
    Abandoned(String),
    NeedsRecovery(RecoveryIssue),
}

#[verifier::ext_equal]
pub enum OutcomeView {
    Recovered(Seq<char>),
    Abandoned(Seq<char>),
    NeedsRecovery(IssueView),
}

impl RecoverOutcome {
    pub open spec fn view(&self) -> OutcomeView {
        match self {
            RecoverOutcome::Recovered(id) => OutcomeView::Recovered(id@),
            RecoverOutcome::Abandoned(id) => OutcomeView::Abandoned(id@),
            RecoverOutcome::NeedsRecovery(i) => OutcomeView::NeedsRecovery(i@),
        }
    }
}

pub open spec fn opt_outcome(o: Option<RecoverOutcome>) -> Option<OutcomeView> {
    match o {
        Some(r) => Some(r@),
        None => None,
    }
}

/// The step that is due: what is to be looked at or done next, and reported back as an event.
#[derive(Clone, Copy, PartialEq, Eq, Structural, Debug)]
pub enum RecoveryStage {
    /// Read the body of the copy.
    CheckBody,
    /// Read the body of the source.
    ReadSource,
    /// See whether the file of the copy's body is there.
    CheckDest,
    /// Write the body of the copy.
    WriteBody,
    /// Read the body of the copy that was written.
    ReadBack,
    /// Save the record.
    SaveBody,
    /// Look up the owner of the copy's row.
    FindOwner,
    /// Insert the copy's row.
    InsertRow,
    /// Look up the owner of the row that was inserted.
    VerifyRow,
    /// Save the record.
    SaveRow,
    /// Map the copy to the cloud.
    RegisterMapping,
    /// Save the record.
    SaveMapping,
    /// See whether the copy is mapped.
    CheckMapping,
    /// Put the copy down in the links.
    CommitLinks,
    /// Save the record.
    SaveLinks,
    /// See whether the copy is in the links.
    CheckLinks,
    /// Save the record.
    SaveCompleted,
    /// Save the record; the outcome stands whether that succeeds or not.
    SaveOutcome,
    /// Nothing.
    Finished,
}

/// What was found, or how a step ended.
pub enum RecoveryEvent {
    Content(ContentState),
    Flag(bool),
    Owner(Option<String>),
    Inserted(Result<DbCopyOutcome, String>),
    Committed(Result<String, String>),
    Done(Result<(), String>),
}

#[verifier::ext_equal]
pub enum EventView {
    Content(ContentStateView),
    Flag(bool),
    Owner(Option<Seq<char>>),
    Inserted(Result<DbCopyOutcome, Seq<char>>),
    Committed(Result<Seq<char>, Seq<char>>),
    Done(Result<(), Seq<char>>),
}

impl RecoveryEvent {
    pub open spec fn view(&self) -> EventView {
        match self {
            RecoveryEvent::Content(c) => EventView::Content(c@),
            RecoveryEvent::Flag(b) => EventView::Flag(*b),
            RecoveryEvent::Owner(o) => EventView::Owner(text::opt_text(*o)),
            RecoveryEvent::Inserted(r) => EventView::Inserted(
                match r {
                    Ok(o) => Ok(*o),
                    Err(e) => Err(e@),
                },
            ),
            RecoveryEvent::Committed(r) => EventView::Committed(
                match r {
                    Ok(g) => Ok(g@),
                    Err(e) => Err(e@),
                },
            ),
            RecoveryEvent::Done(r) => EventView::Done(
                match r {
                    Ok(_) => Ok(()),
                    Err(e) => Err(e@),
                },
            ),
        }
    }
}

/// A copy that is being brought to an end.
pub struct Recovery {
    pub operation: Operation,
    pub content: Option<NormalizedContent>,
    pub stage: RecoveryStage,
    pub outcome: Option<RecoverOutcome>,
}

#[verifier::ext_equal]
pub struct RecoveryView {
    pub operation: OperationView,
    pub content: Option<ContentView>,
    pub stage: RecoveryStage,
    pub outcome: Option<OutcomeView>,
}

pub open spec fn opt_content(c: Option<NormalizedContent>) -> Option<ContentView> {
    match c {
        Some(n) => Some(n@),
        None => None,
    }
}

/// The copy as it is taken up.
pub open spec fn taken_up(operation: OperationView) -> RecoveryView {
    RecoveryView { operation, content: None, stage: RecoveryStage::CheckBody, outcome: None }
}

/// The issue of a copy that could not be brought to an end.
pub open spec fn issue(v: RecoveryView, reason: Seq<char>, retryable: bool) -> OutcomeView {
    OutcomeView::NeedsRecovery(
        IssueView { operation_id: v.operation.operation_id, reason, retryable },
    )
}

/// It stops here, with an issue.
pub open spec fn stopped(v: RecoveryView, reason: Seq<char>, retryable: bool) -> RecoveryView {
    RecoveryView {
        stage: RecoveryStage::Finished,
        outcome: Some(issue(v, reason, retryable)),
        ..v
    }
}

/// It stops here, with an issue that is put down in the record.
pub open spec fn failed(
    v: RecoveryView,
    reason: Seq<char>,
    retryable: bool,
    now: i64,
) -> RecoveryView {
    RecoveryView {
        operation: OperationView { last_error: Some(reason), updated_at: now, ..v.operation },
        stage: RecoveryStage::SaveOutcome,
        outcome: Some(issue(v, reason, retryable)),
        ..v
    }
}

/// It is given up.
pub open spec fn given_up(v: RecoveryView, now: i64) -> RecoveryView {
    RecoveryView {
        operation: OperationView {
            phase: OpPhase::Abandoned,
            last_error: Some(ABANDONED_REASON@),
            updated_at: now,
            ..v.operation
        },
        stage: RecoveryStage::SaveOutcome,
        outcome: Some(OutcomeView::Abandoned(v.operation.operation_id)),
        ..v
    }
}

pub open spec fn at_stage(v: RecoveryView, stage: RecoveryStage) -> RecoveryView {
    RecoveryView { stage, ..v }
}

/// The phase is reached, which is put down in the record where it is new; where it is not, `next` follows.
pub open spec fn advanced(
    v: RecoveryView,
    phase: OpPhase,
    save: RecoveryStage,
    next: RecoveryView,
    now: i64,
) -> RecoveryView {
    if phase_rank(v.operation.phase) >= phase_rank(phase) {
        next
    } else {
        RecoveryView {
            operation: session_link::phase_advanced(v.operation, phase, now),
            stage: save,
            ..v
        }
    }
}

/// What is due once the row is there: to map the copy, or where that was done, to see whether it
/// still is.
pub open spec fn after_row(v: RecoveryView) -> RecoveryView {
    if phase_rank(v.operation.phase) < phase_rank(OpPhase::MappingWritten) {
        at_stage(v, RecoveryStage::RegisterMapping)
    } else {
        at_stage(v, RecoveryStage::CheckMapping)
    }
}

/// What is due once the copy is mapped: to put it down in the links, or where that was done, to
/// see whether it still is there.
pub open spec fn after_mapping(v: RecoveryView) -> RecoveryView {
    if phase_rank(v.operation.phase) < phase_rank(OpPhase::LinksCommitted) {
        at_stage(v, RecoveryStage::CommitLinks)
    } else {
        at_stage(v, RecoveryStage::CheckLinks)
    }
}

/// The copy is complete.
pub open spec fn recovered(v: RecoveryView) -> RecoveryView {
    RecoveryView {
        stage: RecoveryStage::Finished,
        outcome: Some(OutcomeView::Recovered(v.operation.operation_id)),
        ..v
    }
}

pub open spec fn row_done(v: RecoveryView, now: i64) -> RecoveryView {
    advanced(v, OpPhase::DbWritten, RecoveryStage::SaveRow, after_row(v), now)
}

pub open spec fn links_done(v: RecoveryView, now: i64) -> RecoveryView {
    advanced(v, OpPhase::Completed, RecoveryStage::SaveCompleted, recovered(v), now)
}

/// What is wrong with a body that was written, read back; nothing where it is as expected.
pub open spec fn body_complaint(found: ContentStateView, digest: Seq<char>) -> Option<Seq<char>> {
    match found {
        ContentStateView::Ready(c) => if c.total_digest == digest {
            None
        } else {
            Some("副本正文写后校验不一致，未报告成功"@)
        },
        ContentStateView::Missing => Some("副本正文写入后不存在，未报告成功"@),
        ContentStateView::Unavailable(reason) => Some("副本正文写后无法验证："@ + reason),
    }
}

/// The name of an outcome.
pub open spec fn outcome_name(o: DbCopyOutcome) -> Seq<char> {
    match o {
        DbCopyOutcome::Inserted => "Inserted"@,
        DbCopyOutcome::SourceRowMissing => "SourceRowMissing"@,
        DbCopyOutcome::NoSessionsTable => "NoSessionsTable"@,
        DbCopyOutcome::NoDb => "NoDb"@,
    }
}

/// After the copy's body was looked at.
pub open spec fn body_checked(v: RecoveryView, found: ContentStateView) -> RecoveryView {
    match found {
        ContentStateView::Ready(c) => if c.total_digest == v.operation.expected_content_digest {
            RecoveryView { content: Some(c), stage: RecoveryStage::FindOwner, ..v }
        } else {
            stopped(v, "目标正文与操作记录不一致（可能被其它程序改动），已停止恢复"@, false)
        },
        ContentStateView::Unavailable(reason) => stopped(
            v,
            "目标正文不可验证（"@ + reason + "），已停止恢复"@,
            false,
        ),
        ContentStateView::Missing => if phase_rank(v.operation.phase) >= phase_rank(
            OpPhase::BodyWritten,
        ) {
            stopped(v, "目标正文丢失，已停止恢复"@, false)
        } else {
            at_stage(v, RecoveryStage::ReadSource)
        },
    }
}

/// After the source's body was read: the copy is of what the source holds now; where the source
/// is gone, the copy is given up.
pub open spec fn source_read(v: RecoveryView, found: ContentStateView, now: i64) -> RecoveryView {
    match found {
        ContentStateView::Ready(c) => RecoveryView {
            operation: if c.total_digest != v.operation.expected_content_digest {
                OperationView {
                    expected_content_digest: c.total_digest,
                    expected_record_count: c.record_count,
                    ..v.operation
                }
            } else {
                v.operation
            },
            content: Some(c),
            stage: RecoveryStage::CheckDest,
            ..v
        },
        _ => given_up(v, now),
    }
}

/// After the owner of the copy's row was looked up.
pub open spec fn owner_found(v: RecoveryView, owner: Option<Seq<char>>, now: i64) -> RecoveryView {
    match owner {
        Some(o) => if o == v.operation.target.uid {
            row_done(v, now)
        } else {
            stopped(v, "目标会话行归属异常，已停止恢复"@, false)
        },
        None => if phase_rank(v.operation.phase) >= phase_rank(OpPhase::DbWritten) {
            stopped(v, "目标会话行丢失，已停止恢复"@, false)
        } else {
            at_stage(v, RecoveryStage::InsertRow)
        },
    }
}

/// After the record was saved: with an error it stops, and may be tried again.
pub open spec fn saved(v: RecoveryView, r: Result<(), Seq<char>>, next: RecoveryView) -> RecoveryView {
    match r {
        Ok(_) => next,
        Err(e) => stopped(v, e, true),
    }
}

/// What follows an event. An event that does not belong to the step that is due changes nothing.
pub open spec fn recovery_next(v: RecoveryView, e: EventView, now: i64) -> RecoveryView {
    match (v.stage, e) {
        (RecoveryStage::CheckBody, EventView::Content(found)) => body_checked(v, found),
        (RecoveryStage::ReadSource, EventView::Content(found)) => source_read(v, found, now),
        (RecoveryStage::CheckDest, EventView::Flag(exists)) => if exists {
            failed(v, "目标正文已存在同名文件，已停止复制"@, true, now)
        } else {
            at_stage(v, RecoveryStage::WriteBody)
        },
        (RecoveryStage::WriteBody, EventView::Done(r)) => match r {
            Ok(_) => at_stage(v, RecoveryStage::ReadBack),
            Err(e) => failed(v, "副本正文写入失败："@ + e, true, now),
        },
        (RecoveryStage::ReadBack, EventView::Content(found)) => match body_complaint(
            found,
            v.operation.expected_content_digest,
        ) {
            Some(e) => failed(v, e, true, now),
            None => advanced(
                v,
                OpPhase::BodyWritten,
                RecoveryStage::SaveBody,
                at_stage(v, RecoveryStage::FindOwner),
                now,
            ),
        },
        (RecoveryStage::SaveBody, EventView::Done(r)) => saved(
            v,
            r,
            at_stage(v, RecoveryStage::FindOwner),
        ),
        (RecoveryStage::FindOwner, EventView::Owner(owner)) => owner_found(v, owner, now),
        (RecoveryStage::InsertRow, EventView::Inserted(r)) => match r {
            Ok(DbCopyOutcome::Inserted) => at_stage(v, RecoveryStage::VerifyRow),
            Ok(o) => failed(
                v,
                "会话行写入失败（"@ + outcome_name(o) + "），保留操作待重试"@,
                false,
                now,
            ),
            Err(e) => failed(v, e, true, now),
        },
        (RecoveryStage::VerifyRow, EventView::Owner(owner)) => match session::owner_complaint(
            owner,
            v.operation.target.uid,
        ) {
            Some(e) => stopped(v, e, false),
            None => row_done(v, now),
        },
        (RecoveryStage::SaveRow, EventView::Done(r)) => saved(v, r, after_row(v)),
        (RecoveryStage::RegisterMapping, EventView::Done(r)) => match r {
            Ok(_) => advanced(
                v,
                OpPhase::MappingWritten,
                RecoveryStage::SaveMapping,
                after_mapping(v),
                now,
            ),
            Err(e) => failed(v, e, true, now),
        },
        (RecoveryStage::SaveMapping, EventView::Done(r)) => saved(v, r, after_mapping(v)),
        (RecoveryStage::CheckMapping, EventView::Flag(mapped)) => if mapped {
            after_mapping(v)
        } else {
            stopped(v, "云端映射丢失或被改动，已停止恢复"@, false)
        },
        (RecoveryStage::CommitLinks, EventView::Committed(r)) => match r {
            Ok(group_id) => {
                let w = RecoveryView {
                    operation: OperationView { group_id, ..v.operation },
                    ..v
                };
                advanced(
                    w,
                    OpPhase::LinksCommitted,
                    RecoveryStage::SaveLinks,
                    links_done(w, now),
                    now,
                )
            },
            Err(e) => failed(v, e, true, now),
        },
        (RecoveryStage::SaveLinks, EventView::Done(r)) => saved(v, r, links_done(v, now)),
        (RecoveryStage::CheckLinks, EventView::Done(r)) => match r {
            Ok(_) => links_done(v, now),
            Err(e) => stopped(v, e, false),
        },
        (RecoveryStage::SaveCompleted, EventView::Done(r)) => saved(v, r, recovered(v)),
        (RecoveryStage::SaveOutcome, EventView::Done(_)) => at_stage(v, RecoveryStage::Finished),
        _ => v,
    }
}

/// What is wrong with a body that was written, read back.
pub fn verify_written_body(found: &ContentState, digest: &str) -> (r: Option<String>)
    ensures
        text::opt_text(r) == body_complaint(found@, digest@),
{
    match found {
        ContentState::Ready(c) => if text::same_text(c.total_digest.as_str(), digest) {
            None
        } else {
            Some("副本正文写后校验不一致，未报告成功".to_owned())
        },
        ContentState::Missing => Some("副本正文写入后不存在，未报告成功".to_owned()),
        ContentState::Unavailable(reason) => Some(
            text::concat("副本正文写后无法验证：", reason.as_str()),
        ),
    }
}

fn name_of_outcome(o: DbCopyOutcome) -> (r: &'static str)
    ensures
        r@ == outcome_name(o),
{
    match o {
        DbCopyOutcome::Inserted => "Inserted",
        DbCopyOutcome::SourceRowMissing => "SourceRowMissing",
        DbCopyOutcome::NoSessionsTable => "NoSessionsTable",
        DbCopyOutcome::NoDb => "NoDb",
    }
}

impl Recovery {
    pub open spec fn view(&self) -> RecoveryView {
        RecoveryView {
            operation: self.operation@,
            content: opt_content(self.content),
            stage: self.stage,
            outcome: opt_outcome(self.outcome),
        }
    }

    /// Takes a copy up that was broken off.
    pub fn new(operation: Operation) -> (r: Recovery)
        ensures
            r@ == taken_up(operation@),
    {
        Recovery { operation, content: None, stage: RecoveryStage::CheckBody, outcome: None }
    }

    fn stop(&mut self, reason: String, retryable: bool)
        ensures
            final(self)@ == stopped(old(self)@, reason@, retryable),
    {
        let operation_id = self.operation.operation_id.clone();
        self.outcome = Some(
            RecoverOutcome::NeedsRecovery(RecoveryIssue { operation_id, reason, retryable }),
        );
        self.stage = RecoveryStage::Finished;
    }

    fn fail(&mut self, reason: String, retryable: bool, now: i64)
        ensures
            final(self)@ == failed(old(self)@, reason@, retryable, now),
    {
        let operation_id = self.operation.operation_id.clone();
        self.operation.last_error = Some(reason.clone());
        self.operation.updated_at = now;
        self.outcome = Some(
            RecoverOutcome::NeedsRecovery(RecoveryIssue { operation_id, reason, retryable }),
        );
        self.stage = RecoveryStage::SaveOutcome;
    }

    fn give_up(&mut self, now: i64)
        ensures
            final(self)@ == given_up(old(self)@, now),
    {
        let operation_id = self.operation.operation_id.clone();
        self.operation.phase = OpPhase::Abandoned;
        self.operation.last_error = Some(ABANDONED_REASON.to_owned());
        self.operation.updated_at = now;
        self.outcome = Some(RecoverOutcome::Abandoned(operation_id));
        self.stage = RecoveryStage::SaveOutcome;
    }

    /// Puts the phase down where it is new; whether it is.
    fn advance(&mut self, phase: OpPhase, save: RecoveryStage, now: i64) -> (r: bool)
        ensures
            r == (phase_rank(old(self).operation.phase) < phase_rank(phase)),
            r ==> final(self)@ == advanced(old(self)@, phase, save, old(self)@, now),
            !r ==> *final(self) == *old(self),
    {
        let new = session_link::advance_operation(&mut self.operation, phase, now);
        if new {
            self.stage = save;
        }
        new
    }

    fn go_on_after_row(&mut self)
        ensures
            final(self)@ == after_row(old(self)@),
    {
        self.stage = if self.operation.phase.reached(OpPhase::MappingWritten) {
            RecoveryStage::CheckMapping
        } else {
            RecoveryStage::RegisterMapping
        };
    }

    fn go_on_after_mapping(&mut self)
        ensures
            final(self)@ == after_mapping(old(self)@),
    {
        self.stage = if self.operation.phase.reached(OpPhase::LinksCommitted) {
            RecoveryStage::CheckLinks
        } else {
            RecoveryStage::CommitLinks
        };
    }

    fn complete(&mut self)
        ensures
            final(self)@ == recovered(old(self)@),
    {
        let operation_id = self.operation.operation_id.clone();
        self.outcome = Some(RecoverOutcome::Recovered(operation_id));
        self.stage = RecoveryStage::Finished;
    }

    fn row_is_there(&mut self, now: i64)
        ensures
            final(self)@ == row_done(old(self)@, now),
    {
        if !self.advance(OpPhase::DbWritten, RecoveryStage::SaveRow, now) {
            self.go_on_after_row();
        }
    }

    fn links_are_there(&mut self, now: i64)
        ensures
            final(self)@ == links_done(old(self)@, now),
    {
        if !self.advance(OpPhase::Completed, RecoveryStage::SaveCompleted, now) {
            self.complete();
        }
    }

    /// Looks at the body of the copy that was found.
    fn check_target_body(&mut self, found: ContentState)
        ensures
            final(self)@ == body_checked(old(self)@, found@),
    {
        match found {
            ContentState::Ready(c) => {
                if text::same_text(
                    c.total_digest.as_str(),
                    self.operation.expected_content_digest.as_str(),
                ) {
                    self.content = Some(c);
                    self.stage = RecoveryStage::FindOwner;
                } else {
                    self.stop(
                        "目标正文与操作记录不一致（可能被其它程序改动），已停止恢复".to_owned(),
                        false,
                    );
                }
            },
            ContentState::Unavailable(reason) => {
                self.stop(
                    text::concat3("目标正文不可验证（", reason.as_str(), "），已停止恢复"),
                    false,
                );
            },
            ContentState::Missing => {
                if self.operation.phase.reached(OpPhase::BodyWritten) {
                    self.stop("目标正文丢失，已停止恢复".to_owned(), false);
                } else {
                    self.stage = RecoveryStage::ReadSource;
                }
            },
        }
    }

    fn take_source(&mut self, found: ContentState, now: i64)
        ensures
            final(self)@ == source_read(old(self)@, found@, now),
    {
        match found {
            ContentState::Ready(c) => {
                if !text::same_text(
                    c.total_digest.as_str(),
                    self.operation.expected_content_digest.as_str(),
                ) {
                    self.operation.expected_content_digest = c.total_digest.clone();
                    self.operation.expected_record_count = c.record_count;
                }
                self.content = Some(c);
                self.stage = RecoveryStage::CheckDest;
            },
            _ => {
                self.give_up(now);
            },
        }
    }

    fn take_owner(&mut self, owner: Option<String>, now: i64)
        ensures
            final(self)@ == owner_found(old(self)@, text::opt_text(owner), now),
    {
        match owner {
            Some(o) => {
                if text::same_text(o.as_str(), self.operation.target.uid.as_str()) {
                    self.row_is_there(now);
                } else {
                    self.stop("目标会话行归属异常，已停止恢复".to_owned(), false);
                }
            },
            None => {
                if self.operation.phase.reached(OpPhase::DbWritten) {
                    self.stop("目标会话行丢失，已停止恢复".to_owned(), false);
                } else {
                    self.stage = RecoveryStage::InsertRow;
                }
            },
        }
    }

    /// Takes in what was found or how the step ended that was due.
    pub fn step(&mut self, event: RecoveryEvent, now: i64)
        ensures
            final(self)@ == recovery_next(old(self)@, event@, now),
    {
        match (self.stage, event) {
            (RecoveryStage::CheckBody, RecoveryEvent::Content(found)) => {
                self.check_target_body(found);
            },
            (RecoveryStage::ReadSource, RecoveryEvent::Content(found)) => {
                self.take_source(found, now);
            },
            (RecoveryStage::CheckDest, RecoveryEvent::Flag(exists)) => {
                if exists {
                    self.fail("目标正文已存在同名文件，已停止复制".to_owned(), true, now);
                } else {
                    self.stage = RecoveryStage::WriteBody;
                }
            },
            (RecoveryStage::WriteBody, RecoveryEvent::Done(r)) => match r {
                Ok(_) => {
                    self.stage = RecoveryStage::ReadBack;
                },
                Err(e) => {
                    self.fail(text::concat("副本正文写入失败：", e.as_str()), true, now);
                },
            },
            (RecoveryStage::ReadBack, RecoveryEvent::Content(found)) => {
                match verify_written_body(
                    &found,
                    self.operation.expected_content_digest.as_str(),
                ) {
                    Some(e) => {
                        self.fail(e, true, now);
                    },
                    None => {
                        if !self.advance(OpPhase::BodyWritten, RecoveryStage::SaveBody, now) {
                            self.stage = RecoveryStage::FindOwner;
                        }
                    },
                }
            },
            (RecoveryStage::SaveBody, RecoveryEvent::Done(r)) => match r {
                Ok(_) => {
                    self.stage = RecoveryStage::FindOwner;
                },
                Err(e) => {
                    self.stop(e, true);
                },
            },
            (RecoveryStage::FindOwner, RecoveryEvent::Owner(owner)) => {
                self.take_owner(owner, now);
            },
            (RecoveryStage::InsertRow, RecoveryEvent::Inserted(r)) => match r {
                Ok(DbCopyOutcome::Inserted) => {
                    self.stage = RecoveryStage::VerifyRow;
                },
                Ok(o) => {
                    self.fail(
                        text::concat3(
                            "会话行写入失败（",
                            name_of_outcome(o),
                            "），保留操作待重试",
                        ),
                        false,
                        now,
                    );
                },
                Err(e) => {
                    self.fail(e, true, now);
                },
            },
            (RecoveryStage::VerifyRow, RecoveryEvent::Owner(owner)) => {
                match session::verify_session_row(&owner, self.operation.target.uid.as_str()) {
                    Ok(_) => {
                        self.row_is_there(now);
                    },
                    Err(e) => {
                        self.stop(e, false);
                    },
                }
            },
            (RecoveryStage::SaveRow, RecoveryEvent::Done(r)) => match r {
                Ok(_) => {
                    self.go_on_after_row();
                },
                Err(e) => {
                    self.stop(e, true);
                },
            },
            (RecoveryStage::RegisterMapping, RecoveryEvent::Done(r)) => match r {
                Ok(_) => {
                    if !self.advance(OpPhase::MappingWritten, RecoveryStage::SaveMapping, now) {
                        self.go_on_after_mapping();
                    }
                },
                Err(e) => {
                    self.fail(e, true, now);
                },
            },
            (RecoveryStage::SaveMapping, RecoveryEvent::Done(r)) => match r {
                Ok(_) => {
                    self.go_on_after_mapping();
                },
                Err(e) => {
                    self.stop(e, true);
                },
            },
            (RecoveryStage::CheckMapping, RecoveryEvent::Flag(mapped)) => {
                if mapped {
                    self.go_on_after_mapping();
                } else {
                    self.stop("云端映射丢失或被改动，已停止恢复".to_owned(), false);
                }
            },
            (RecoveryStage::CommitLinks, RecoveryEvent::Committed(r)) => match r {
                Ok(group_id) => {
                    self.operation.group_id = group_id;
                    if !self.advance(OpPhase::LinksCommitted, RecoveryStage::SaveLinks, now) {
                        self.links_are_there(now);
                    }
                },
                Err(e) => {
                    self.fail(e, true, now);
                },
            },
            (RecoveryStage::SaveLinks, RecoveryEvent::Done(r)) => match r {
                Ok(_) => {
                    self.links_are_there(now);
                },
                Err(e) => {
                    self.stop(e, true);
                },
            },
            (RecoveryStage::CheckLinks, RecoveryEvent::Done(r)) => match r {
                Ok(_) => {
                    self.links_are_there(now);
                },
                Err(e) => {
                    self.stop(e, false);
                },
            },
            (RecoveryStage::SaveCompleted, RecoveryEvent::Done(r)) => match r {
                Ok(_) => {
                    self.complete();
                },
                Err(e) => {
                    self.stop(e, true);
                },
            },
            (RecoveryStage::SaveOutcome, RecoveryEvent::Done(_)) => {
                self.stage = RecoveryStage::Finished;
            },
            _ => {},
        }
    }
}

// ---------------------------------------------------------------------------
// All copies that were broken off
// ---------------------------------------------------------------------------

/// The issue of a record that cannot be read.
pub open spec fn unreadable(problem: Seq<char>) -> IssueView {
    IssueView {
        operation_id: problem,
        reason: UNPARSEABLE_OPERATION_REASON@ + "（"@ + problem
            + "），已停止恢复以免产生重复副本"@,
        retryable: false,
    }
}

/// The report with one more outcome.
pub open spec fn reported(report: ReportView, outcome: OutcomeView) -> ReportView {
    match outcome {
        OutcomeView::Recovered(id) => ReportView { recovered: report.recovered.push(id), ..report },
        OutcomeView::Abandoned(id) => ReportView { abandoned: report.abandoned.push(id), ..report },
        OutcomeView::NeedsRecovery(i) => ReportView {
            needs_recovery: report.needs_recovery.push(i),
            ..report
        },
    }
}

/// The report on the records that could not be read and on the outcomes, in their order.
pub open spec fn full_report(problems: Seq<Seq<char>>, outcomes: Seq<OutcomeView>) -> ReportView
    decreases outcomes.len(),
{
    if outcomes.len() == 0 {
        ReportView {
            recovered: seq![],
            abandoned: seq![],
            needs_recovery: problems.map_values(|p: Seq<char>| unreadable(p)),
        }
    } else {
        reported(full_report(problems, outcomes.drop_last()), outcomes.last())
    }
}

pub open spec fn outcome_views(outcomes: Seq<RecoverOutcome>) -> Seq<OutcomeView> {
    outcomes.map_values(|o: RecoverOutcome| o@)
}

/// The report on the copies of an edition that were broken off: the records that could not be
/// read, and what became of the others.
pub fn recover_pending_session_operations_at(
    problems: &Vec<String>,
    outcomes: Vec<RecoverOutcome>,
) -> (r: RecoveryReport)
    ensures
        r@ == full_report(text::texts(problems@), outcome_views(outcomes@)),
{
    let ghost names = text::texts(problems@);
    let ghost views = outcome_views(outcomes@);
    let mut needs_recovery: Vec<RecoveryIssue> = Vec::new();
    let mut i: usize = 0;
    while i < problems.len()
        invariant
            i <= problems@.len(),
            names == text::texts(problems@),
            needs_recovery@.len() == i,
            forall|j: int| 0 <= j < i ==> (#[trigger] needs_recovery@[j])@ == unreadable(names[j]),
        decreases problems@.len() - i,
    {
        let mut reason = text::concat3(
            UNPARSEABLE_OPERATION_REASON,
            "（",
            problems[i].as_str(),
        );
        reason.append("），已停止恢复以免产生重复副本");
        needs_recovery.push(
            RecoveryIssue { operation_id: problems[i].clone(), reason, retryable: false },
        );
        i += 1;
    }
    let mut report = RecoveryReport {
        recovered: Vec::new(),
        abandoned: Vec::new(),
        needs_recovery,
    };
    let mut rest = outcomes;
    let ghost mut n: int = 0;
    proof {
        assert(views.take(0) =~= seq![]);
        assert(report@ =~= full_report(names, views.take(0)));
    }
    while rest.len() > 0
        invariant
            0 <= n <= views.len(),
            rest@.len() == views.len() - n,
            forall|j: int| 0 <= j < rest@.len() ==> #[trigger] rest@[j]@ == views[n + j],
            report@ == full_report(names, views.take(n)),
        decreases rest@.len(),
    {
        let ghost before = rest@;
        let ghost r0 = report@;
        let outcome = rest.remove(0);
        proof {
            assert(before[0]@ == views[n]);
            assert(views.take(n + 1).drop_last() =~= views.take(n));
            assert forall|j: int| 0 <= j < rest@.len() implies #[trigger] rest@[j]@ == views[n + 1
                + j] by {
                assert(before[j + 1]@ == views[n + (j + 1)]);
            }
            n = n + 1;
        }
        let ghost o = outcome@;
        match outcome {
            RecoverOutcome::Recovered(id) => {
                report.recovered.push(id);
            },
            RecoverOutcome::Abandoned(id) => {
                report.abandoned.push(id);
            },
            RecoverOutcome::NeedsRecovery(issue) => {
                report.needs_recovery.push(issue);
            },
        }
        assert(report@ =~= reported(r0, o));
    }
    assert(views.take(n) =~= views);
    report
}

/// The report, where the lock could be had; otherwise the complaint about the lock.
pub fn recover_pending_session_operations(
    lock: Result<(), String>,
    problems: &Vec<String>,
    outcomes: Vec<RecoverOutcome>,
) -> (r: Result<RecoveryReport, String>)
    ensures
        match lock {
            Ok(_) => r matches Ok(report) && report@ == full_report(
                text::texts(problems@),
                outcome_views(outcomes@),
            ),
            Err(e) => r matches Err(f) && f@ == e@,
        },
{
    match lock {
        Ok(_) => Ok(recover_pending_session_operations_at(problems, outcomes)),
        Err(e) => Err(e),
    }
}

// ---------------------------------------------------------------------------
// Laws
// ---------------------------------------------------------------------------

/// The phases that a step needs: what was done is not due again, and an outcome stands only at
/// the end.
pub open spec fn in_order(v: RecoveryView) -> bool {
    let rank = phase_rank(v.operation.phase);
    match v.stage {
        RecoveryStage::CheckBody => unfinished(v.operation.phase) && v.outcome is None,
        RecoveryStage::ReadSource | RecoveryStage::CheckDest | RecoveryStage::WriteBody
        | RecoveryStage::ReadBack => rank < phase_rank(OpPhase::BodyWritten) && v.outcome is None,
        RecoveryStage::SaveBody => rank == phase_rank(OpPhase::BodyWritten) && v.outcome is None,
        RecoveryStage::FindOwner => unfinished(v.operation.phase) && v.outcome is None,
        RecoveryStage::InsertRow | RecoveryStage::VerifyRow => rank < phase_rank(
            OpPhase::DbWritten,
        ) && v.outcome is None,
        RecoveryStage::SaveRow => rank == phase_rank(OpPhase::DbWritten) && v.outcome is None,
        RecoveryStage::RegisterMapping => rank == phase_rank(OpPhase::DbWritten)
            && v.outcome is None,
        RecoveryStage::SaveMapping => rank == phase_rank(OpPhase::MappingWritten)
            && v.outcome is None,
        RecoveryStage::CheckMapping => rank >= phase_rank(OpPhase::MappingWritten) && unfinished(
            v.operation.phase,
        ) && v.outcome is None,
        RecoveryStage::CommitLinks => rank == phase_rank(OpPhase::MappingWritten)
            && v.outcome is None,
        RecoveryStage::SaveLinks | RecoveryStage::CheckLinks => rank == phase_rank(
            OpPhase::LinksCommitted,
        ) && v.outcome is None,
        RecoveryStage::SaveCompleted => v.operation.phase == OpPhase::Completed
            && v.outcome is None,
        RecoveryStage::SaveOutcome | RecoveryStage::Finished => match v.outcome {
            Some(OutcomeView::Recovered(_)) => v.operation.phase == OpPhase::Completed,
            Some(OutcomeView::Abandoned(_)) => v.operation.phase == OpPhase::Abandoned,
            Some(OutcomeView::NeedsRecovery(_)) => true,
            None => false,
        },
    }
}

/// Steps are taken in their order, and each that was taken is not taken again: the body is
/// written only while no body was, the row inserted only while no row was, the copy mapped only
/// while it was not, and put down in the links only while it was not. A copy counts as recovered
/// only when it is complete, and as given up only when it was.
pub proof fn law_recovery_replays_nothing(v: RecoveryView, e: EventView, now: i64)
    ensures
        unfinished(v.operation.phase) ==> in_order(taken_up(v.operation)),
        in_order(v) ==> in_order(recovery_next(v, e, now)),
{
}

/// A phase that was reached is never left for an earlier one, and the sessions that are copied
/// stay the same: no second copy gets another id.
pub proof fn law_recovery_never_goes_back(v: RecoveryView, e: EventView, now: i64)
    ensures
        phase_rank(recovery_next(v, e, now).operation.phase) >= phase_rank(v.operation.phase),
        recovery_next(v, e, now).operation.operation_id == v.operation.operation_id,
        recovery_next(v, e, now).operation.source == v.operation.source,
        recovery_next(v, e, now).operation.target == v.operation.target,
{
}

/// How many steps may be left.
pub open spec fn steps_left(stage: RecoveryStage) -> nat {
    match stage {
        RecoveryStage::CheckBody => 18,
        RecoveryStage::ReadSource => 17,
        RecoveryStage::CheckDest => 16,
        RecoveryStage::WriteBody => 15,
        RecoveryStage::ReadBack => 14,
        RecoveryStage::SaveBody => 13,
        RecoveryStage::FindOwner => 12,
        RecoveryStage::InsertRow => 11,
        RecoveryStage::VerifyRow => 10,
        RecoveryStage::SaveRow => 9,
        RecoveryStage::RegisterMapping => 8,
        RecoveryStage::SaveMapping => 7,
        RecoveryStage::CheckMapping => 6,
        RecoveryStage::CommitLinks => 5,
        RecoveryStage::SaveLinks => 4,
        RecoveryStage::CheckLinks => 3,
        RecoveryStage::SaveCompleted => 2,
        RecoveryStage::SaveOutcome => 1,
        RecoveryStage::Finished => 0,
    }
}

/// Recovery comes to an end: each event that belongs to the step that is due leaves fewer steps.
pub proof fn law_recovery_ends(v: RecoveryView, e: EventView, now: i64)
    ensures
        recovery_next(v, e, now) == v || steps_left(recovery_next(v, e, now).stage) < steps_left(
            v.stage,
        ),
{
}

/// What was changed in between is not written over: with a body that is not the expected one
/// recovery stops at once, writes nothing, and asks for no further try.
pub proof fn law_changed_body_stops_recovery(v: RecoveryView, content: ContentView, now: i64)
    requires
        v.stage == RecoveryStage::CheckBody,
        content.total_digest != v.operation.expected_content_digest,
    ensures
        ({
            let w = recovery_next(v, EventView::Content(ContentStateView::Ready(content)), now);
            &&& w.stage == RecoveryStage::Finished
            &&& w.operation == v.operation
            &&& w.outcome matches Some(OutcomeView::NeedsRecovery(i)) && !i.retryable
        }),
{
}

/// The id that an outcome is reported under.
pub open spec fn outcome_id(o: OutcomeView) -> Seq<char> {
    match o {
        OutcomeView::Recovered(id) => id,
        OutcomeView::Abandoned(id) => id,
        OutcomeView::NeedsRecovery(i) => i.operation_id,
    }
}

pub open spec fn outcome_ids(outcomes: Seq<OutcomeView>) -> Seq<Seq<char>> {
    outcomes.map_values(|o: OutcomeView| outcome_id(o))
}

pub open spec fn issue_ids(issues: Seq<IssueView>) -> Seq<Seq<char>> {
    issues.map_values(|i: IssueView| i.operation_id)
}

/// All ids of a report.
pub open spec fn reported_ids(report: ReportView) -> Multiset<Seq<char>> {
    report.recovered.to_multiset().add(report.abandoned.to_multiset()).add(
        issue_ids(report.needs_recovery).to_multiset(),
    )
}

/// Nothing is passed over in silence: each record that could not be read and each outcome stands
/// in the report once, under its id.
pub proof fn law_report_holds_everything(problems: Seq<Seq<char>>, outcomes: Seq<OutcomeView>)
    ensures
        reported_ids(full_report(problems, outcomes)) == problems.to_multiset().add(
            outcome_ids(outcomes).to_multiset(),
        ),
    decreases outcomes.len(),
{
    broadcast use vstd::seq_lib::group_to_multiset_ensures;

    let none = Seq::<Seq<char>>::empty();
    let r = full_report(problems, outcomes);
    if outcomes.len() == 0 {
        assert(issue_ids(r.needs_recovery) =~= problems);
        assert(outcome_ids(outcomes) =~= none);
        assert(none.to_multiset() =~= Multiset::empty());
        assert(reported_ids(r) =~= problems.to_multiset().add(
            outcome_ids(outcomes).to_multiset(),
        ));
    } else {
        let front = outcomes.drop_last();
        let last = outcomes.last();
        law_report_holds_everything(problems, front);
        let before = full_report(problems, front);
        assert(outcome_ids(outcomes) =~= outcome_ids(front).push(outcome_id(last)));
        match last {
            OutcomeView::NeedsRecovery(i) => {
                assert(issue_ids(r.needs_recovery) =~= issue_ids(before.needs_recovery).push(
                    i.operation_id,
                ));
            },
            _ => {},
        }
        assert(reported_ids(r) =~= reported_ids(before).insert(outcome_id(last)));
        assert(reported_ids(r) =~= problems.to_multiset().add(
            outcome_ids(outcomes).to_multiset(),
        ));
    }
}

/// Where everything is in place and only the end of the copy was not put down, recovery looks at
/// each part, writes none, and is done once the record says so.
pub proof fn law_intact_copy_is_only_completed(
    operation: OperationView,
    content: ContentView,
    now: i64,
)
    requires
        operation.phase == OpPhase::LinksCommitted,
        content.total_digest == operation.expected_content_digest,
    ensures
        ({
            let a = recovery_next(
                taken_up(operation),
                EventView::Content(ContentStateView::Ready(content)),
                now,
            );
            let b = recovery_next(a, EventView::Owner(Some(operation.target.uid)), now);
            let c = recovery_next(b, EventView::Flag(true), now);
            let d = recovery_next(c, EventView::Done(Ok(())), now);
            let e = recovery_next(d, EventView::Done(Ok(())), now);
            &&& a.stage == RecoveryStage::FindOwner
            &&& b.stage == RecoveryStage::CheckMapping
            &&& c.stage == RecoveryStage::CheckLinks
            &&& d.stage == RecoveryStage::SaveCompleted
            &&& e.stage == RecoveryStage::Finished
            &&& e.outcome == Some(OutcomeView::Recovered(operation.operation_id))
            &&& e.operation == OperationView {
                phase: OpPhase::Completed,
                updated_at: now,
                ..operation
            }
        }),
{
}

/// The recovery stops at once with the issue, and the record stays as it is.
pub open spec fn stops_with(
    v: RecoveryView,
    w: RecoveryView,
    reason: Seq<char>,
    retryable: bool,
) -> bool {
    &&& w.stage == RecoveryStage::Finished
    &&& w.operation == v.operation
    &&& w.content == v.content
    &&& w.outcome == Some(
        OutcomeView::NeedsRecovery(
            IssueView { operation_id: v.operation.operation_id, reason, retryable },
        ),
    )
}

/// The recovery stops with the issue once the record is saved with the issue put down in it.
pub open spec fn fails_with(
    v: RecoveryView,
    w: RecoveryView,
    reason: Seq<char>,
    retryable: bool,
    now: i64,
) -> bool {
    &&& w.stage == RecoveryStage::SaveOutcome
    &&& w.operation == (OperationView {
        last_error: Some(reason),
        updated_at: now,
        ..v.operation
    })
    &&& w.content == v.content
    &&& w.outcome == Some(
        OutcomeView::NeedsRecovery(
            IssueView { operation_id: v.operation.operation_id, reason, retryable },
        ),
    )
}

/// The phase is reached, and the record is to be saved with it.
pub open spec fn reaches(
    v: RecoveryView,
    w: RecoveryView,
    phase: OpPhase,
    stage: RecoveryStage,
    now: i64,
) -> bool {
    w == (RecoveryView {
        operation: OperationView { phase, updated_at: now, ..v.operation },
        stage,
        ..v
    })
}

/// The body of the copy decides how recovery starts. The expected one is kept as it is. One that
/// cannot be checked, or that is gone after it was written, stops recovery for good; one that was
/// not written yet is made of the source.
pub proof fn law_recovery_starts_with_the_body(
    v: RecoveryView,
    content: ContentView,
    reason: Seq<char>,
    now: i64,
)
    requires
        v.stage == RecoveryStage::CheckBody,
    ensures
        content.total_digest == v.operation.expected_content_digest ==> recovery_next(
            v,
            EventView::Content(ContentStateView::Ready(content)),
            now,
        ) == (RecoveryView {
            content: Some(content),
            stage: RecoveryStage::FindOwner,
            ..v
        }),
        content.total_digest != v.operation.expected_content_digest ==> stops_with(
            v,
            recovery_next(v, EventView::Content(ContentStateView::Ready(content)), now),
            "目标正文与操作记录不一致（可能被其它程序改动），已停止恢复"@,
            false,
        ),
        stops_with(
            v,
            recovery_next(v, EventView::Content(ContentStateView::Unavailable(reason)), now),
            "目标正文不可验证（"@ + reason + "），已停止恢复"@,
            false,
        ),
        v.operation.phase == OpPhase::Prepared ==> recovery_next(
            v,
            EventView::Content(ContentStateView::Missing),
            now,
        ) == (RecoveryView { stage: RecoveryStage::ReadSource, ..v }),
        v.operation.phase != OpPhase::Prepared ==> stops_with(
            v,
            recovery_next(v, EventView::Content(ContentStateView::Missing), now),
            "目标正文丢失，已停止恢复"@,
            false,
        ),
{
}

/// A copy that is made of the source is made of what the source holds now, which the record
/// expects from then on. Where the source cannot be read, the copy is given up, and the record
/// says so.
pub proof fn law_copy_is_of_what_the_source_holds(
    v: RecoveryView,
    content: ContentView,
    found: ContentStateView,
    now: i64,
)
    requires
        v.stage == RecoveryStage::ReadSource,
    ensures
        ({
            let w = recovery_next(v, EventView::Content(ContentStateView::Ready(content)), now);
            &&& w.stage == RecoveryStage::CheckDest
            &&& w.content == Some(content)
            &&& w.outcome == v.outcome
            &&& w.operation.expected_content_digest == content.total_digest
            &&& content.total_digest != v.operation.expected_content_digest
                ==> w.operation.expected_record_count == content.record_count
            &&& content.total_digest == v.operation.expected_content_digest ==> w.operation
                == v.operation
            &&& w.operation == (OperationView {
                expected_content_digest: w.operation.expected_content_digest,
                expected_record_count: w.operation.expected_record_count,
                ..v.operation
            })
        }),
        !(found is Ready) ==> recovery_next(v, EventView::Content(found), now) == (RecoveryView {
            operation: OperationView {
                phase: OpPhase::Abandoned,
                last_error: Some("源会话已不可用，且未写入任何副本，已放弃该操作"@),
                updated_at: now,
                ..v.operation
            },
            stage: RecoveryStage::SaveOutcome,
            outcome: Some(OutcomeView::Abandoned(v.operation.operation_id)),
            ..v
        }),
{
}

/// A body is written only where no file is in its place, is read back, and counts as written only
/// where it is the expected one; every failure is put down in the record and may be tried again.
pub proof fn law_written_body_is_checked(
    v: RecoveryView,
    content: ContentView,
    error: Seq<char>,
    now: i64,
)
    ensures
        v.stage == RecoveryStage::CheckDest ==> {
            &&& fails_with(
                v,
                recovery_next(v, EventView::Flag(true), now),
                "目标正文已存在同名文件，已停止复制"@,
                true,
                now,
            )
            &&& recovery_next(v, EventView::Flag(false), now) == (RecoveryView {
                stage: RecoveryStage::WriteBody,
                ..v
            })
        },
        v.stage == RecoveryStage::WriteBody ==> {
            &&& recovery_next(v, EventView::Done(Ok(())), now) == (RecoveryView {
                stage: RecoveryStage::ReadBack,
                ..v
            })
            &&& fails_with(
                v,
                recovery_next(v, EventView::Done(Err(error)), now),
                "副本正文写入失败："@ + error,
                true,
                now,
            )
        },
        v.stage == RecoveryStage::ReadBack ==> {
            let read = recovery_next(v, EventView::Content(ContentStateView::Ready(content)), now);
            &&& content.total_digest != v.operation.expected_content_digest ==> fails_with(
                v,
                read,
                "副本正文写后校验不一致，未报告成功"@,
                true,
                now,
            )
            &&& content.total_digest == v.operation.expected_content_digest && v.operation.phase
                == OpPhase::Prepared ==> reaches(
                v,
                read,
                OpPhase::BodyWritten,
                RecoveryStage::SaveBody,
                now,
            )
            &&& content.total_digest == v.operation.expected_content_digest && v.operation.phase
                != OpPhase::Prepared ==> read == (RecoveryView {
                stage: RecoveryStage::FindOwner,
                ..v
            })
            &&& fails_with(
                v,
                recovery_next(v, EventView::Content(ContentStateView::Missing), now),
                "副本正文写入后不存在，未报告成功"@,
                true,
                now,
            )
            &&& fails_with(
                v,
                recovery_next(v, EventView::Content(ContentStateView::Unavailable(error)), now),
                "副本正文写后无法验证："@ + error,
                true,
                now,
            )
        },
{
}

/// A row of the target's stands as it is, and one of another owner stops recovery for good. A row
/// that is missing is inserted where none was, and stops recovery for good where one was.
pub proof fn law_row_must_be_the_targets(
    v: RecoveryView,
    owner: Seq<char>,
    now: i64,
)
    requires
        v.stage == RecoveryStage::FindOwner,
    ensures
        owner != v.operation.target.uid ==> stops_with(
            v,
            recovery_next(v, EventView::Owner(Some(owner)), now),
            "目标会话行归属异常，已停止恢复"@,
            false,
        ),
        ({
            let w = recovery_next(v, EventView::Owner(Some(v.operation.target.uid)), now);
            match v.operation.phase {
                OpPhase::Prepared | OpPhase::BodyWritten => reaches(
                    v,
                    w,
                    OpPhase::DbWritten,
                    RecoveryStage::SaveRow,
                    now,
                ),
                OpPhase::DbWritten => w == (RecoveryView {
                    stage: RecoveryStage::RegisterMapping,
                    ..v
                }),
                _ => w == (RecoveryView { stage: RecoveryStage::CheckMapping, ..v }),
            }
        }),
        ({
            let w = recovery_next(v, EventView::Owner(None), now);
            if v.operation.phase == OpPhase::Prepared || v.operation.phase == OpPhase::BodyWritten {
                w == (RecoveryView { stage: RecoveryStage::InsertRow, ..v })
            } else {
                stops_with(v, w, "目标会话行丢失，已停止恢复"@, false)
            }
        }),
{
}

/// A row that was inserted counts only where it is found to be the target's. That it could not be
/// inserted is put down in the record: for want of the source's row, the table or the database for
/// good, for an error so that it may be tried again.
pub proof fn law_inserted_row_is_checked(
    v: RecoveryView,
    owner: Option<Seq<char>>,
    error: Seq<char>,
    now: i64,
)
    ensures
        v.stage == RecoveryStage::InsertRow ==> {
            &&& recovery_next(v, EventView::Inserted(Ok(DbCopyOutcome::Inserted)), now) == (
            RecoveryView { stage: RecoveryStage::VerifyRow, ..v })
            &&& fails_with(
                v,
                recovery_next(v, EventView::Inserted(Ok(DbCopyOutcome::SourceRowMissing)), now),
                "会话行写入失败（"@ + "SourceRowMissing"@ + "），保留操作待重试"@,
                false,
                now,
            )
            &&& fails_with(
                v,
                recovery_next(v, EventView::Inserted(Ok(DbCopyOutcome::NoSessionsTable)), now),
                "会话行写入失败（"@ + "NoSessionsTable"@ + "），保留操作待重试"@,
                false,
                now,
            )
            &&& fails_with(
                v,
                recovery_next(v, EventView::Inserted(Ok(DbCopyOutcome::NoDb)), now),
                "会话行写入失败（"@ + "NoDb"@ + "），保留操作待重试"@,
                false,
                now,
            )
            &&& fails_with(
                v,
                recovery_next(v, EventView::Inserted(Err(error)), now),
                error,
                true,
                now,
            )
        },
        v.stage == RecoveryStage::VerifyRow && owner != Some(v.operation.target.uid) ==> {
            let w = recovery_next(v, EventView::Owner(owner), now);
            &&& w.stage == RecoveryStage::Finished
            &&& w.operation == v.operation
            &&& w.outcome matches Some(OutcomeView::NeedsRecovery(i)) && !i.retryable
                && i.operation_id == v.operation.operation_id
        },
        v.stage == RecoveryStage::VerifyRow && (v.operation.phase == OpPhase::Prepared
            || v.operation.phase == OpPhase::BodyWritten) ==> reaches(
            v,
            recovery_next(v, EventView::Owner(Some(v.operation.target.uid)), now),
            OpPhase::DbWritten,
            RecoveryStage::SaveRow,
            now,
        ),
{
}

/// A copy that was not mapped is mapped. A mapping that was there and is not as it was stops
/// recovery for good.
pub proof fn law_mapping_is_made_once(v: RecoveryView, error: Seq<char>, now: i64)
    ensures
        v.stage == RecoveryStage::RegisterMapping ==> {
            &&& v.operation.phase == OpPhase::DbWritten ==> reaches(
                v,
                recovery_next(v, EventView::Done(Ok(())), now),
                OpPhase::MappingWritten,
                RecoveryStage::SaveMapping,
                now,
            )
            &&& fails_with(
                v,
                recovery_next(v, EventView::Done(Err(error)), now),
                error,
                true,
                now,
            )
        },
        v.stage == RecoveryStage::CheckMapping ==> {
            let w = recovery_next(v, EventView::Flag(true), now);
            &&& w == (RecoveryView { stage: w.stage, ..v })
            &&& v.operation.phase == OpPhase::MappingWritten ==> w.stage
                == RecoveryStage::CommitLinks
            &&& v.operation.phase == OpPhase::LinksCommitted ==> w.stage
                == RecoveryStage::CheckLinks
            &&& stops_with(
                v,
                recovery_next(v, EventView::Flag(false), now),
                "云端映射丢失或被改动，已停止恢复"@,
                false,
            )
        },
{
}

/// A copy is put down in the links where it was not, under the group that was found for it. Links
/// that were there and are not as they were stop recovery for good.
pub proof fn law_links_are_made_once(
    v: RecoveryView,
    group_id: Seq<char>,
    error: Seq<char>,
    now: i64,
)
    ensures
        v.stage == RecoveryStage::CommitLinks ==> {
            &&& v.operation.phase == OpPhase::MappingWritten ==> recovery_next(
                v,
                EventView::Committed(Ok(group_id)),
                now,
            ) == (RecoveryView {
                operation: OperationView {
                    group_id,
                    phase: OpPhase::LinksCommitted,
                    updated_at: now,
                    ..v.operation
                },
                stage: RecoveryStage::SaveLinks,
                ..v
            })
            &&& fails_with(
                v,
                recovery_next(v, EventView::Committed(Err(error)), now),
                error,
                true,
                now,
            )
        },
        v.stage == RecoveryStage::CheckLinks ==> {
            &&& v.operation.phase == OpPhase::LinksCommitted ==> reaches(
                v,
                recovery_next(v, EventView::Done(Ok(())), now),
                OpPhase::Completed,
                RecoveryStage::SaveCompleted,
                now,
            )
            &&& stops_with(v, recovery_next(v, EventView::Done(Err(error)), now), error, false)
        },
{
}

/// A record that cannot be saved stops recovery, which may be tried again. One that was saved is
/// followed by the next step: after the body the row, after the row the mapping, after the mapping
/// the links, after the links the end.
pub proof fn law_record_is_saved_before_the_next_step(
    v: RecoveryView,
    error: Seq<char>,
    now: i64,
)
    requires
        v.stage == RecoveryStage::SaveBody || v.stage == RecoveryStage::SaveRow || v.stage
            == RecoveryStage::SaveMapping || v.stage == RecoveryStage::SaveLinks || v.stage
            == RecoveryStage::SaveCompleted,
        in_order(v),
    ensures
        stops_with(v, recovery_next(v, EventView::Done(Err(error)), now), error, true),
        ({
            let w = recovery_next(v, EventView::Done(Ok(())), now);
            match v.stage {
                RecoveryStage::SaveBody => w == (RecoveryView {
                    stage: RecoveryStage::FindOwner,
                    ..v
                }),
                RecoveryStage::SaveRow => w == (RecoveryView {
                    stage: RecoveryStage::RegisterMapping,
                    ..v
                }),
                RecoveryStage::SaveMapping => w == (RecoveryView {
                    stage: RecoveryStage::CommitLinks,
                    ..v
                }),
                RecoveryStage::SaveLinks => reaches(
                    v,
                    w,
                    OpPhase::Completed,
                    RecoveryStage::SaveCompleted,
                    now,
                ),
                _ => w == (RecoveryView {
                    stage: RecoveryStage::Finished,
                    outcome: Some(OutcomeView::Recovered(v.operation.operation_id)),
                    ..v
                }),
            }
        }),
{
}

/// An outcome that was put down in the record stands, whether the record could be saved or not;
/// and an event that no step waits for changes nothing.
pub proof fn law_outcome_stands(v: RecoveryView, e: EventView, now: i64)
    ensures
        v.stage == RecoveryStage::SaveOutcome && e is Done ==> recovery_next(v, e, now) == (
        RecoveryView { stage: RecoveryStage::Finished, ..v }),
        recovery_next(v, e, now) != v ==> match v.stage {
            RecoveryStage::CheckBody | RecoveryStage::ReadSource
            | RecoveryStage::ReadBack => e is Content,
            RecoveryStage::CheckDest | RecoveryStage::CheckMapping => e is Flag,
            RecoveryStage::FindOwner | RecoveryStage::VerifyRow => e is Owner,
            RecoveryStage::InsertRow => e is Inserted,
            RecoveryStage::CommitLinks => e is Committed,
            RecoveryStage::Finished => false,
            _ => e is Done,
        },
{
}

/// Recovery starts with the record as it is kept.
pub proof fn law_recovery_takes_the_record_up(operation: OperationView)
    ensures
        taken_up(operation) == (RecoveryView {
            operation,
            content: None,
            stage: RecoveryStage::CheckBody,
            outcome: None,
        }),
{
}

/// Each outcome is added to its own list, behind those that came before; the other lists stay.
pub proof fn law_each_outcome_is_reported_in_its_place(
    problems: Seq<Seq<char>>,
    outcomes: Seq<OutcomeView>,
    id: Seq<char>,
    i: IssueView,
)
    ensures
        ({
            let before = full_report(problems, outcomes);
            &&& full_report(problems, outcomes.push(OutcomeView::Recovered(id))) == (ReportView {
                recovered: before.recovered.push(id),
                ..before
            })
            &&& full_report(problems, outcomes.push(OutcomeView::Abandoned(id))) == (ReportView {
                abandoned: before.abandoned.push(id),
                ..before
            })
            &&& full_report(problems, outcomes.push(OutcomeView::NeedsRecovery(i))) == (ReportView {
                needs_recovery: before.needs_recovery.push(i),
                ..before
            })
        }),
{
    assert(outcomes.push(OutcomeView::Recovered(id)).drop_last() =~= outcomes);
    assert(outcomes.push(OutcomeView::Abandoned(id)).drop_last() =~= outcomes);
    assert(outcomes.push(OutcomeView::NeedsRecovery(i)).drop_last() =~= outcomes);
}

/// A record that cannot be read is reported as an issue that no other try will mend, under what is
/// known of it; before any outcome, nothing else is reported.
pub proof fn law_unreadable_record_is_reported(problems: Seq<Seq<char>>, k: int)
    requires
        0 <= k < problems.len(),
    ensures
        ({
            let report = full_report(problems, seq![]);
            &&& report.recovered.len() == 0
            &&& report.abandoned.len() == 0
            &&& report.needs_recovery.len() == problems.len()
            &&& report.needs_recovery[k] == (IssueView {
                operation_id: problems[k],
                reason: "操作记录无法解析"@ + "（"@ + problems[k]
                    + "），已停止恢复以免产生重复副本"@,
                retryable: false,
            })
        }),
{
}

} // verus!
