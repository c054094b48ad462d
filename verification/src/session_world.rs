//! Copies of sessions on a disk that works: what the steps of a copy, of a recovery and of a
//! request find there and leave there, and what that means for requests that follow one another.

use vstd::prelude::*;

use crate::copy_request;
use crate::copy_request::RequestEventView;
use crate::copy_request::RequestStage;
use crate::copy_request::RequestView;
use crate::session;
use crate::session::DbCopyOutcome;
use crate::session_copy;
use crate::session_copy::CopyEventView;
use crate::session_copy::CopyIdsView;
use crate::session_copy::CopyOutcomeView;
use crate::session_copy::CopyStage;
use crate::session_copy::CopyView;
use crate::session_copy::InputView;
use crate::session_files;
use crate::session_files::StoreFileView;
use crate::session_link;
use crate::session_link::phase_rank;
use crate::session_link::unfinished;
use crate::session_link::BaselineView;
use crate::session_link::ContentStateView;
use crate::session_link::ContentView;
use crate::session_link::LinkIdsView;
use crate::session_link::OpPhase;
use crate::session_link::OperationView;
use crate::session_link::StoreStateView;
use crate::session_link::StoreView;
use crate::session_recovery;
use crate::session_recovery::EventView;
use crate::session_recovery::OutcomeView;
use crate::session_recovery::RecoveryStage;
use crate::session_recovery::RecoveryView;
use crate::text;
use crate::variant::WbVariant;

verus! {

// ---------------------------------------------------------------------------
// What is on disk
// ---------------------------------------------------------------------------

/// What the files and databases of an edition hold.
#[verifier::ext_equal]
pub struct Disk {
    /// The user that is logged in.
    pub login: Option<Seq<char>>,
    /// The accounts, by user.
    pub accounts: Map<Seq<char>, Seq<char>>,
    /// Whether the edition's data can take copies.
    pub supported: bool,
    /// The bodies, by session.
    pub bodies: Map<Seq<char>, Seq<char>>,
    /// The users that the rows belong to, by session.
    pub owners: Map<Seq<char>, Seq<char>>,
    /// The sessions whose workspace is bound to the account.
    pub bound: Set<Seq<char>>,
    /// The channels that sessions are mapped to.
    pub channels: Map<Seq<char>, Seq<char>>,
    /// What keeps sessions from being mapped, where something does.
    pub obstacle: Option<Seq<char>>,
    pub store: Option<StoreView>,
    /// What keeps the links from being written, where something does.
    pub link_obstacle: Option<Seq<char>>,
    pub baselines: Seq<BaselineView>,
    /// The records of copies.
    pub records: Seq<OperationView>,
}

/// What chance and the clock give to one copy or recovery.
pub struct Chance {
    pub copy: CopyIdsView,
    pub links: LinkIdsView,
    pub backup: Seq<char>,
    pub now: i64,
}

/// What is found of a body.
pub open spec fn body_of(d: Disk, id: Seq<char>) -> ContentStateView {
    if d.bodies.contains_key(id) {
        session_files::content(d.bodies[id], id)
    } else {
        ContentStateView::Missing
    }
}

/// The user that the row of a session belongs to.
pub open spec fn owner_of(d: Disk, id: Seq<char>) -> Option<Seq<char>> {
    if d.owners.contains_key(id) {
        Some(d.owners[id])
    } else {
        None
    }
}

pub open spec fn account_of(d: Disk, uid: Seq<char>) -> Option<Seq<char>> {
    if d.accounts.contains_key(uid) {
        Some(d.accounts[uid])
    } else {
        None
    }
}

/// Baselines or unfinished records are there.
pub open spec fn has_traces(d: Disk) -> bool {
    d.baselines.len() > 0 || exists|i: int|
        0 <= i < d.records.len() && unfinished((#[trigger] d.records[i]).phase)
}

/// What is found of the store of links.
pub open spec fn store_of(d: Disk) -> StoreStateView {
    session_files::found_store(
        match d.store {
            Some(s) => StoreFileView::Held(s),
            None => StoreFileView::Absent,
        },
        has_traces(d),
    )
}

/// A store of links as it is made.
pub open spec fn new_store(revision: u64) -> StoreView {
    StoreView { version: session_link::STORE_VERSION, revision, groups: seq![] }
}

/// The first position at or after `from` of the record with the id.
pub open spec fn record_from(records: Seq<OperationView>, id: Seq<char>, from: int) -> Option<int>
    decreases records.len() - from,
{
    if from < 0 || from >= records.len() {
        None
    } else if records[from].operation_id == id {
        Some(from)
    } else {
        record_from(records, id, from + 1)
    }
}

/// The records with one saved.
pub open spec fn with_record(records: Seq<OperationView>, o: OperationView) -> Seq<OperationView> {
    match record_from(records, o.operation_id, 0) {
        Some(i) => records.update(i, o),
        None => records.push(o),
    }
}

pub open spec fn saved(d: Disk, o: OperationView) -> Disk {
    Disk { records: with_record(d.records, o), ..d }
}

/// The body of the copy is written.
pub open spec fn body_written(d: Disk, o: OperationView) -> Disk {
    Disk {
        bodies: d.bodies.insert(
            o.target.session_id,
            text::replaced(
                d.bodies[o.source.session_id],
                o.source.session_id,
                o.target.session_id,
            ),
        ),
        ..d
    }
}

/// How the insertion of the copy's row ends.
pub open spec fn insertion(d: Disk, o: OperationView) -> Result<DbCopyOutcome, Seq<char>> {
    if owner_of(d, o.source.session_id) != Some(o.source.uid) {
        Ok(DbCopyOutcome::SourceRowMissing)
    } else if d.bound.contains(o.source.session_id) {
        Err("Claw 工作区绑定当前账号渠道，不支持复制"@)
    } else {
        Ok(DbCopyOutcome::Inserted)
    }
}

pub open spec fn row_inserted(d: Disk, o: OperationView) -> Disk {
    if insertion(d, o) == Ok::<DbCopyOutcome, Seq<char>>(DbCopyOutcome::Inserted) {
        Disk { owners: d.owners.insert(o.target.session_id, o.target.uid), ..d }
    } else {
        d
    }
}

/// How the mapping of the copy ends.
pub open spec fn mapping(d: Disk) -> Result<(), Seq<char>> {
    match d.obstacle {
        Some(reason) => Err(reason),
        None => Ok(()),
    }
}

pub open spec fn mapped(d: Disk, o: OperationView) -> Disk {
    if d.obstacle is None {
        Disk {
            channels: d.channels.insert(
                o.target.session_id,
                session::channel_of(o.target.uid),
            ),
            ..d
        }
    } else {
        d
    }
}

/// The copy is mapped to its user's channel.
pub open spec fn is_mapped(d: Disk, o: OperationView) -> bool {
    d.channels.contains_key(o.target.session_id) && d.channels[o.target.session_id]
        == session::channel_of(o.target.uid)
}

/// The store that the copy is put down in, or why it cannot be.
pub open spec fn store_to_write(d: Disk) -> Result<StoreView, Seq<char>> {
    match (store_of(d), d.link_obstacle) {
        (StoreStateView::Unavailable(reason), _) => Err(reason),
        (_, Some(reason)) => Err(reason),
        (StoreStateView::Ready(s), None) => if s.revision < u64::MAX {
            Ok(s)
        } else {
            Err("关联存储写入次数已达上限"@)
        },
        (StoreStateView::Missing, None) => Ok(new_store(0)),
    }
}

/// How the copy's being put down in the links ends.
pub open spec fn commitment(d: Disk, o: OperationView) -> Result<Seq<char>, Seq<char>> {
    match store_to_write(d) {
        Ok(_) => Ok(o.group_id),
        Err(e) => Err(e),
    }
}

pub open spec fn links_written(d: Disk, o: OperationView, content: ContentView, ch: Chance) -> Disk {
    match store_to_write(d) {
        Ok(s) => Disk {
            store: Some(
                session_link::committed(
                    s,
                    o,
                    o.variant,
                    content.line_digests,
                    d.baselines,
                    ch.links,
                    ch.now,
                ),
            ),
            baselines: d.baselines.push(
                BaselineView {
                    baseline_ref: ch.links.baseline,
                    line_digests: content.line_digests,
                },
            ),
            ..d
        },
        Err(_) => d,
    }
}

/// The records without those of finished copies that are no longer kept.
pub open spec fn pruned(d: Disk, variant: WbVariant) -> Disk {
    let old = session_files::outdated(
        d.records,
        variant,
        session_link::KEEP_COMPLETED_OPERATIONS as nat,
        d.records.len(),
    );
    Disk { records: d.records.filter(|o: OperationView| !old.contains(o.operation_id)), ..d }
}

// ---------------------------------------------------------------------------
// A copy
// ---------------------------------------------------------------------------

/// What the step of a copy that is due finds, or how it ends.
pub open spec fn copy_answer(d: Disk, v: CopyView, ch: Chance) -> CopyEventView {
    let o = v.operation->0;
    match v.stage {
        CopyStage::ReadSource => CopyEventView::Content(body_of(d, v.input.session_id)),
        CopyStage::FindOwner => CopyEventView::Owner(owner_of(d, v.input.session_id)),
        CopyStage::LoadStore => CopyEventView::Store(store_of(d)),
        CopyStage::CheckMember => CopyEventView::Flag(
            match v.candidate {
                Some(c) => body_of(d, c.0) is Ready && owner_of(d, c.0) == Some(c.1),
                None => false,
            },
        ),
        CopyStage::CreateStore => CopyEventView::Done(
            match d.link_obstacle {
                Some(reason) => Err(reason),
                None => Ok(()),
            },
        ),
        CopyStage::Backup => CopyEventView::Named(Ok(ch.backup)),
        CopyStage::CheckDest => CopyEventView::Flag(d.bodies.contains_key(o.target.session_id)),
        CopyStage::ReadBack => CopyEventView::Content(body_of(d, o.target.session_id)),
        CopyStage::InsertRow => CopyEventView::Inserted(insertion(d, o)),
        CopyStage::VerifyRow => CopyEventView::Owner(owner_of(d, o.target.session_id)),
        CopyStage::RegisterMapping => CopyEventView::Done(mapping(d)),
        CopyStage::CommitLinks => CopyEventView::Named(commitment(d, o)),
        _ => CopyEventView::Done(Ok(())),
    }
}

/// What the step of a copy that is due leaves on disk.
pub open spec fn copy_effect(d: Disk, v: CopyView, ch: Chance) -> Disk {
    let o = v.operation->0;
    match v.stage {
        CopyStage::CreateStore => if d.link_obstacle is None {
            Disk { store: Some(new_store(1)), ..d }
        } else {
            d
        },
        CopyStage::SavePrepared | CopyStage::SaveBody | CopyStage::SaveRow
        | CopyStage::SaveMapping | CopyStage::SaveLinks | CopyStage::SaveCompleted
        | CopyStage::SaveFailure => saved(d, o),
        CopyStage::WriteBody => body_written(d, o),
        CopyStage::InsertRow => row_inserted(d, o),
        CopyStage::RegisterMapping => mapped(d, o),
        CopyStage::CommitLinks => links_written(d, o, v.content->0, ch),
        CopyStage::Prune => pruned(d, v.input.variant),
        _ => d,
    }
}

/// The copy after the step that is due.
pub open spec fn copy_step(d: Disk, v: CopyView, ch: Chance) -> CopyView {
    session_copy::copy_next(v, copy_answer(d, v, ch), ch.copy, ch.now)
}

/// The disk and the copy when it has come to its end.
#[verifier::opaque]
pub open spec fn copy_run(d: Disk, v: CopyView, ch: Chance) -> (Disk, CopyView)
    decreases session_copy::steps_left(v.stage),
{
    let w = copy_step(d, v, ch);
    if session_copy::steps_left(w.stage) < session_copy::steps_left(v.stage) {
        copy_run(copy_effect(d, v, ch), w, ch)
    } else {
        (d, v)
    }
}

// ---------------------------------------------------------------------------
// A recovery
// ---------------------------------------------------------------------------

/// What the step of a recovery that is due finds, or how it ends.
pub open spec fn recovery_answer(d: Disk, v: RecoveryView) -> EventView {
    let o = v.operation;
    match v.stage {
        RecoveryStage::CheckBody | RecoveryStage::ReadBack => EventView::Content(
            body_of(d, o.target.session_id),
        ),
        RecoveryStage::ReadSource => EventView::Content(body_of(d, o.source.session_id)),
        RecoveryStage::CheckDest => EventView::Flag(d.bodies.contains_key(o.target.session_id)),
        RecoveryStage::FindOwner | RecoveryStage::VerifyRow => EventView::Owner(
            owner_of(d, o.target.session_id),
        ),
        RecoveryStage::InsertRow => EventView::Inserted(insertion(d, o)),
        RecoveryStage::RegisterMapping => EventView::Done(mapping(d)),
        RecoveryStage::CheckMapping => EventView::Flag(is_mapped(d, o)),
        RecoveryStage::CommitLinks => EventView::Committed(commitment(d, o)),
        RecoveryStage::CheckLinks => EventView::Done(
            match session_link::links_complaint(store_of(d), o) {
                Some(e) => Err(e),
                None => Ok(()),
            },
        ),
        _ => EventView::Done(Ok(())),
    }
}

/// What the step of a recovery that is due leaves on disk.
pub open spec fn recovery_effect(d: Disk, v: RecoveryView, ch: Chance) -> Disk {
    let o = v.operation;
    match v.stage {
        RecoveryStage::WriteBody => body_written(d, o),
        RecoveryStage::InsertRow => row_inserted(d, o),
        RecoveryStage::RegisterMapping => mapped(d, o),
        RecoveryStage::CommitLinks => links_written(d, o, v.content->0, ch),
        RecoveryStage::SaveBody | RecoveryStage::SaveRow | RecoveryStage::SaveMapping
        | RecoveryStage::SaveLinks | RecoveryStage::SaveCompleted
        | RecoveryStage::SaveOutcome => saved(d, o),
        _ => d,
    }
}

/// The recovery after the step that is due.
pub open spec fn recovery_step(d: Disk, v: RecoveryView, ch: Chance) -> RecoveryView {
    session_recovery::recovery_next(v, recovery_answer(d, v), ch.now)
}

/// The disk and the recovery when it has come to its end.
#[verifier::opaque]
pub open spec fn recovery_run(d: Disk, v: RecoveryView, ch: Chance) -> (Disk, RecoveryView)
    decreases session_recovery::steps_left(v.stage),
{
    let w = recovery_step(d, v, ch);
    if session_recovery::steps_left(w.stage) < session_recovery::steps_left(v.stage) {
        recovery_run(recovery_effect(d, v, ch), w, ch)
    } else {
        (d, v)
    }
}

/// The disk and the outcomes when the copies on the list have been recovered, one after another.
#[verifier::opaque]
pub open spec fn recover_all(d: Disk, list: Seq<OperationView>, ch: Chance) -> (
    Disk,
    Seq<OutcomeView>,
)
    decreases list.len(),
{
    if list.len() == 0 {
        (d, seq![])
    } else {
        let before = recover_all(d, list.drop_last(), ch);
        let run = recovery_run(before.0, session_recovery::taken_up(list.last()), ch);
        (run.0, before.1.push(run.1.outcome->0))
    }
}

// ---------------------------------------------------------------------------
// A request
// ---------------------------------------------------------------------------

/// What is copied next.
pub open spec fn next_input(d: Disk, r: RequestView) -> InputView {
    let source = match r.source_uid {
        Some(u) => u,
        None => seq![],
    };
    InputView {
        variant: r.variant,
        session_id: r.session_ids[r.results.len() as int],
        source_uid: source,
        source_account_id: account_of(d, source),
        target_uid: copy_request::target_of(r),
        target_account_id: account_of(d, copy_request::target_of(r)),
    }
}

/// A request under way: the disk, the request, and the copies that were under way when it began
/// to copy.
#[verifier::ext_equal]
pub struct Work {
    pub disk: Disk,
    pub request: RequestView,
    pub pending: Seq<OperationView>,
}

/// A request after the step that is due, with no client running and the lock free.
pub open spec fn request_step(w: Work, ch: Chance) -> Work {
    let d = w.disk;
    let r = w.request;
    let variant = r.variant;
    match r.stage {
        RequestStage::CheckRunning | RequestStage::Recheck => Work {
            request: copy_request::request_next(r, RequestEventView::Flag(false)),
            ..w
        },
        RequestStage::CheckSupported => Work {
            request: copy_request::request_next(r, RequestEventView::Flag(d.supported)),
            ..w
        },
        RequestStage::ReadLogin => Work {
            request: copy_request::request_next(r, RequestEventView::Login(d.login)),
            ..w
        },
        RequestStage::AcquireLock => Work {
            request: copy_request::request_next(r, RequestEventView::Done(Ok(()))),
            ..w
        },
        RequestStage::Recover => {
            let run = recover_all(d, session_link::pending(d.records, variant), ch);
            Work {
                disk: run.0,
                request: copy_request::request_next(
                    r,
                    RequestEventView::Recovered(session_recovery::full_report(seq![], run.1)),
                ),
                pending: session_link::pending(run.0.records, variant),
            }
        },
        RequestStage::CopySession => {
            let run = copy_run(d, session_copy::begun(next_input(d, r), w.pending), ch);
            Work {
                disk: run.0,
                request: copy_request::request_next(
                    r,
                    RequestEventView::Copied(run.1.result->0),
                ),
                ..w
            }
        },
        RequestStage::CountPending => Work {
            request: copy_request::request_next(
                r,
                RequestEventView::Flag(session_link::pending(d.records, variant).len() > 0),
            ),
            ..w
        },
        RequestStage::Finished => w,
    }
}

/// A request after so many steps.
pub open spec fn request_run(w: Work, ch: Chance, steps: nat) -> Work
    decreases steps,
{
    if steps == 0 || w.request.stage == RequestStage::Finished {
        w
    } else {
        request_run(request_step(w, ch), ch, (steps - 1) as nat)
    }
}

/// A request to copy one session for a user, at its end: it takes seven steps, or eight where the
/// edition's data is looked at.
pub open spec fn request_for(
    d: Disk,
    variant: WbVariant,
    uid: Seq<char>,
    id: Seq<char>,
    ch: Chance,
) -> Work {
    request_run(
        Work {
            disk: d,
            request: copy_request::requested(variant, Some(uid), seq![id]),
            pending: seq![],
        },
        ch,
        8,
    )
}

// ---------------------------------------------------------------------------
// A session that the user has already
// ---------------------------------------------------------------------------

pub proof fn lemma_copy_is_taken(
    d: Disk,
    input: InputView,
    pending: Seq<OperationView>,
    ch: Chance,
    id: Seq<char>,
)
    requires
        session_link::request_from(
            pending,
            input.source_uid,
            input.session_id,
            input.target_uid,
            0,
        ) is None,
        body_of(d, input.session_id) is Ready,
        owner_of(d, input.session_id) == Some(input.source_uid),
        store_of(d) matches StoreStateView::Ready(s) && session_link::counterpart(
            s,
            input.variant,
            input.source_uid,
            input.session_id,
            input.target_uid,
        ) == Some(id),
        body_of(d, id) is Ready,
        owner_of(d, id) == Some(input.target_uid),
    ensures
        copy_run(d, session_copy::begun(input, pending), ch).0 == d,
        copy_run(d, session_copy::begun(input, pending), ch).1.result matches Some(
            Ok(CopyOutcomeView::AlreadyLinked { session_id, .. }),
        ) && session_id == id,
{
    reveal(copy_run);
    let s = store_of(d)->Ready_0;
    let a = session_copy::begun(input, pending);
    let b = copy_step(d, a, ch);
    assert(b.stage == CopyStage::FindOwner);
    assert(copy_run(d, a, ch) == copy_run(d, b, ch));
    let c = copy_step(d, b, ch);
    assert(c.stage == CopyStage::LoadStore);
    assert(copy_run(d, b, ch) == copy_run(d, c, ch));
    let e = copy_step(d, c, ch);
    let g = session_link::identity_from(
        s.groups,
        input.variant,
        input.source_uid,
        input.session_id,
        0,
    )->0;
    session_link::lemma_active_from(s.groups[g].members, input.target_uid, 0);
    assert(e.stage == CopyStage::CheckMember);
    assert(copy_run(d, c, ch) == copy_run(d, e, ch));
    let f = copy_step(d, e, ch);
    assert(f.stage == CopyStage::Finished);
    assert(copy_run(d, e, ch) == copy_run(d, f, ch));
    assert(copy_run(d, f, ch) == (d, f));
}

// ---------------------------------------------------------------------------
// What holds while a copy is made
// ---------------------------------------------------------------------------

/// The links are such as the switcher writes them: no two groups have one id.
pub open spec fn groups_distinct(s: StoreView) -> bool {
    forall|i: int, j: int|
        0 <= i < j < s.groups.len() ==> (#[trigger] s.groups[i]).id != (#[trigger] s.groups[j]).id
}

/// The links do not know the session.
pub open spec fn is_unknown(s: StoreView, id: Seq<char>) -> bool {
    forall|g: int, m: int|
        0 <= g < s.groups.len() && 0 <= m < s.groups[g].members.len() ==> (
        #[trigger] s.groups[g].members[m]).session_id != id
}

/// Where the group that the session is looked up in holds it, it is the one that counts for its
/// user.
pub open spec fn counts(s: StoreView, variant: WbVariant, uid: Seq<char>, id: Seq<char>) -> bool {
    session_link::identity_from(s.groups, variant, uid, id, 0) matches Some(g)
        ==> session_link::active_from(s.groups[g].members, uid, 0) == session_link::member_from(
        s.groups[g].members,
        uid,
        id,
        0,
    )
}

/// The ids that chance gives are new to the links.
pub open spec fn awaits(s: StoreView, ch: Chance) -> bool {
    &&& groups_distinct(s)
    &&& is_unknown(s, ch.copy.session)
    &&& session_link::group_from(s.groups, ch.copy.group, 0) is None
}

/// The group that the copy is put down in.
pub open spec fn group_for(v: CopyView, ch: Chance) -> Seq<char> {
    match v.group_id {
        Some(g) => g,
        None => ch.copy.group,
    }
}

/// The group is the one in which the source is looked up, or a new one.
pub open spec fn group_fits(s: StoreView, input: InputView, group_id: Seq<char>) -> bool {
    &&& s.version == session_link::STORE_VERSION
    &&& session_link::looked_up_in(
        s,
        input.variant,
        input.source_uid,
        input.session_id,
        group_id,
    )
    &&& session_link::group_from(s.groups, group_id, 0) matches Some(g) ==> s.groups[g].variant
        == input.variant
}

/// The links give the copy for the source and, where there is a way back, the source for the copy.
pub open spec fn linked(s: StoreView, input: InputView, new_id: Seq<char>, back: bool) -> bool {
    &&& s.version == session_link::STORE_VERSION
    &&& session_link::counterpart(
        s,
        input.variant,
        input.source_uid,
        input.session_id,
        input.target_uid,
    ) == Some(new_id)
    &&& back ==> session_link::counterpart(
        s,
        input.variant,
        input.target_uid,
        new_id,
        input.source_uid,
    ) == Some(input.session_id)
}

/// The source is on disk, and so is of the copy what its phase says.
pub open spec fn parts_stand(d: Disk, v: CopyView, ch: Chance) -> bool {
    &&& v.input.source_uid != v.input.target_uid
    &&& v.content matches Some(c) ==> body_of(d, v.input.session_id) == ContentStateView::Ready(c)
    &&& match v.stage {
        CopyStage::ReadSource => v.content is None,
        CopyStage::FindOwner => v.content is Some,
        CopyStage::Finished => true,
        _ => v.content is Some && owner_of(d, v.input.session_id) == Some(v.input.source_uid),
    }
    &&& v.operation matches Some(o) ==> {
        let new = ch.copy.session;
        &&& v.content is Some
        &&& owner_of(d, v.input.session_id) == Some(v.input.source_uid)
        &&& o.variant == v.input.variant
        &&& o.operation_id == ch.copy.operation
        &&& o.target.session_id == new
        &&& new != v.input.session_id
        &&& o.expected_content_digest == v.content->0.total_digest
        &&& phase_rank(o.phase) >= phase_rank(OpPhase::BodyWritten) ==> body_of(d, new) is Ready
            && body_of(d, new)->Ready_0.total_digest == o.expected_content_digest
        &&& phase_rank(o.phase) >= phase_rank(OpPhase::DbWritten) ==> owner_of(d, new) == Some(
            v.input.target_uid,
        )
        &&& phase_rank(o.phase) >= phase_rank(OpPhase::MappingWritten) ==> is_mapped(d, o)
        &&& o.phase == OpPhase::DbWritten ==> (v.result matches Some(Err(e)) ==> d.obstacle
            == Some(e))
    }
}

proof fn lemma_parts_stand(d: Disk, v: CopyView, ch: Chance)
    requires
        session_copy::in_order(v),
        parts_stand(d, v, ch),
        v.operation is None ==> !d.bodies.contains_key(ch.copy.session),
        v.stage != CopyStage::Finished,
    ensures
        parts_stand(copy_effect(d, v, ch), copy_step(d, v, ch), ch),
{
    let e = copy_effect(d, v, ch);
    if v.stage == CopyStage::WriteBody {
        assert(body_of(e, v.input.session_id) == body_of(d, v.input.session_id));
    }
}

/// The links are as the copy needs them, until it is put down in them; from then on they lead to
/// it and, where the source counts for its user, back.
pub open spec fn links_stand(d: Disk, v: CopyView, ch: Chance, back: bool) -> bool {
    let input = v.input;
    match v.operation {
        None => {
            &&& d.store matches Some(s) ==> awaits(s, ch) && (back ==> counts(
                s,
                input.variant,
                input.source_uid,
                input.session_id,
            ))
            &&& match v.stage {
                CopyStage::CheckMember | CopyStage::Backup => d.store matches Some(s)
                    && group_fits(s, v.input, group_for(v, ch)),
                CopyStage::Finished => true,
                _ => v.group_id is None,
            }
        },
        Some(o) => if phase_rank(o.phase) < phase_rank(OpPhase::LinksCommitted) {
            &&& d.store matches Some(s) && awaits(s, ch) && group_fits(s, input, o.group_id) && (
            back ==> counts(s, input.variant, input.source_uid, input.session_id))
            &&& o.phase == OpPhase::MappingWritten ==> (v.result matches Some(Err(e)) ==> {
                d.link_obstacle == Some(e) || d.store->0.revision == u64::MAX
            })
        } else {
            d.store matches Some(s) && linked(s, input, ch.copy.session, back)
        },
    }
}

proof fn lemma_group_of_source(s: StoreView, input: InputView)
    requires
        groups_distinct(s),
    ensures
        session_link::identity_from(
            s.groups,
            input.variant,
            input.source_uid,
            input.session_id,
            0,
        ) matches Some(g) ==> 0 <= g < s.groups.len() && s.groups[g].variant == input.variant
            && session_link::group_from(s.groups, s.groups[g].id, 0) == Some(g),
{
    session_link::lemma_identity_from(
        s.groups,
        input.variant,
        input.source_uid,
        input.session_id,
        0,
    );
    match session_link::identity_from(
        s.groups,
        input.variant,
        input.source_uid,
        input.session_id,
        0,
    ) {
        Some(g) => {
            session_link::lemma_group_from(s.groups, s.groups[g].id, 0);
        },
        None => {},
    }
}

/// A copy that is put down where its source is looked up is linked.
pub proof fn lemma_committed_is_linked(
    s: StoreView,
    input: InputView,
    o: OperationView,
    lines: Seq<Seq<char>>,
    records: Seq<BaselineView>,
    new_id: Seq<char>,
    ids: LinkIdsView,
    now: i64,
    back: bool,
)
    requires
        input.source_uid != input.target_uid,
        is_unknown(s, new_id),
        back ==> counts(s, input.variant, input.source_uid, input.session_id),
        group_fits(s, input, o.group_id),
        o.source.uid == input.source_uid,
        o.source.session_id == input.session_id,
        o.target.uid == input.target_uid,
        o.target.session_id == new_id,
        o.variant == input.variant,
    ensures
        linked(
            session_link::committed(s, o, o.variant, lines, records, ids, now),
            input,
            new_id,
            back,
        ),
{
    session_link::lemma_identity_from(s.groups, o.variant, input.target_uid, new_id, 0);
    match session_link::identity_from(s.groups, o.variant, input.target_uid, new_id, 0) {
        Some(g) => {
            let members = s.groups[g].members;
            session_link::lemma_member_from(members, input.target_uid, new_id, 0);
            let m = session_link::member_from(members, input.target_uid, new_id, 0)->0;
            assert(s.groups[g].members[m].session_id != new_id);
        },
        None => {},
    }
    session_link::lemma_identity_from(
        s.groups,
        o.variant,
        input.source_uid,
        input.session_id,
        0,
    );
    session_link::lemma_group_from(s.groups, o.group_id, 0);
    session_link::law_copy_is_found_again(s, o, o.variant, lines, records, ids, now);
    if back {
        session_link::law_way_back_leads_to_the_source(s, o, o.variant, lines, records, ids, now);
    }
}

proof fn lemma_links_stand(d: Disk, v: CopyView, ch: Chance, back: bool)
    requires
        session_copy::in_order(v),
        parts_stand(d, v, ch),
        links_stand(d, v, ch, back),
        v.stage != CopyStage::Finished,
    ensures
        links_stand(copy_effect(d, v, ch), copy_step(d, v, ch), ch, back),
{
    match v.stage {
        CopyStage::LoadStore => {
            match store_of(d) {
                StoreStateView::Ready(s) => {
                    lemma_group_of_source(s, v.input);
                },
                _ => {},
            }
        },
        CopyStage::CommitLinks => {
            match store_to_write(d) {
                Ok(s) => {
                    lemma_committed_is_linked(
                        s,
                        v.input,
                        v.operation->0,
                        v.content->0.line_digests,
                        d.baselines,
                        ch.copy.session,
                        ch.links,
                        ch.now,
                        back,
                    );
                },
                Err(_) => {},
            }
        },
        _ => {},
    }
}

/// No copy of the edition is under way.
pub open spec fn is_quiet(records: Seq<OperationView>, variant: WbVariant) -> bool {
    forall|i: int|
        0 <= i < records.len() ==> !session_link::is_pending(#[trigger] records[i], variant)
}

/// No copy of the edition is under way but the one with the id, and of that there is one record.
pub open spec fn is_alone(
    records: Seq<OperationView>,
    variant: WbVariant,
    id: Seq<char>,
) -> bool {
    &&& forall|i: int|
        0 <= i < records.len() && session_link::is_pending(#[trigger] records[i], variant)
            ==> records[i].operation_id == id
    &&& forall|i: int, j: int|
        0 <= i < j < records.len() ==> !((#[trigger] records[i]).operation_id == id && (
        #[trigger] records[j]).operation_id == id)
}

/// The record with the id says `o`.
pub open spec fn is_saved(records: Seq<OperationView>, o: OperationView) -> bool {
    forall|i: int|
        0 <= i < records.len() && (#[trigger] records[i]).operation_id == o.operation_id
            ==> records[i] == o
}

pub proof fn lemma_record_from(records: Seq<OperationView>, id: Seq<char>, from: int)
    requires
        0 <= from,
    ensures
        record_from(records, id, from) matches Some(i) ==> from <= i < records.len()
            && records[i].operation_id == id,
        record_from(records, id, from) is None ==> forall|j: int|
            from <= j < records.len() ==> (#[trigger] records[j]).operation_id != id,
    decreases records.len() - from,
{
    if from < records.len() && records[from].operation_id != id {
        lemma_record_from(records, id, from + 1);
    }
}

pub proof fn lemma_record_saved(records: Seq<OperationView>, variant: WbVariant, o: OperationView)
    requires
        is_alone(records, variant, o.operation_id),
    ensures
        is_alone(with_record(records, o), variant, o.operation_id),
        is_saved(with_record(records, o), o),
        !session_link::is_pending(o, variant) ==> is_quiet(with_record(records, o), variant),
{
    let id = o.operation_id;
    let all = with_record(records, o);
    lemma_record_from(records, id, 0);
    assert forall|i: int| 0 <= i < all.len() && (#[trigger] all[i]).operation_id == id implies all[i]
        == o by {
        match record_from(records, id, 0) {
            Some(k) => {
                if i < k {
                    assert(!(records[i].operation_id == id && records[k].operation_id == id));
                } else if k < i {
                    assert(!(records[k].operation_id == id && records[i].operation_id == id));
                }
            },
            None => {},
        }
    }
    assert forall|i: int|
        0 <= i < all.len() && session_link::is_pending(
            #[trigger] all[i],
            variant,
        ) implies all[i].operation_id == id by {
        if i < records.len() && all[i] != o {
            assert(all[i] == records[i]);
        }
    }
    assert forall|i: int, j: int| 0 <= i < j < all.len() implies !((
    #[trigger] all[i]).operation_id == id && (#[trigger] all[j]).operation_id == id) by {
        if j < records.len() {
            assert(!(records[i].operation_id == id && records[j].operation_id == id));
        }
    }
}

/// The record of the copy is on disk as it was saved last, and no other copy is under way.
pub open spec fn records_stand(d: Disk, v: CopyView, ch: Chance) -> bool {
    let id = ch.copy.operation;
    let variant = v.input.variant;
    match v.operation {
        None => is_quiet(d.records, variant) && forall|i: int|
            0 <= i < d.records.len() ==> (#[trigger] d.records[i]).operation_id != id,
        Some(o) => {
            &&& o.operation_id == id
            &&& match v.stage {
                CopyStage::SavePrepared | CopyStage::SaveBody | CopyStage::SaveRow
                | CopyStage::SaveMapping | CopyStage::SaveLinks | CopyStage::SaveCompleted
                | CopyStage::SaveFailure => is_alone(d.records, variant, id),
                CopyStage::Finished => if v.result matches Some(Ok(_)) {
                    is_quiet(d.records, variant)
                } else {
                    is_alone(d.records, variant, id) && is_saved(d.records, o)
                },
                _ => is_alone(d.records, variant, id) && is_saved(d.records, o),
            }
        },
    }
}

proof fn lemma_records_stand(d: Disk, v: CopyView, ch: Chance)
    requires
        session_copy::in_order(v),
        parts_stand(d, v, ch),
        records_stand(d, v, ch),
        v.stage != CopyStage::Finished,
    ensures
        records_stand(copy_effect(d, v, ch), copy_step(d, v, ch), ch),
{
    let variant = v.input.variant;
    match v.stage {
        CopyStage::SavePrepared | CopyStage::SaveBody | CopyStage::SaveRow
        | CopyStage::SaveMapping | CopyStage::SaveLinks | CopyStage::SaveCompleted
        | CopyStage::SaveFailure => {
            lemma_record_saved(d.records, variant, v.operation->0);
        },
        CopyStage::Prune => {
            let all = pruned(d, variant).records;
            assert forall|i: int| 0 <= i < all.len() implies !session_link::is_pending(
                #[trigger] all[i],
                variant,
            ) by {
                let old = session_files::outdated(
                    d.records,
                    variant,
                    session_link::KEEP_COMPLETED_OPERATIONS as nat,
                    d.records.len(),
                );
                let pred = |o: OperationView| !old.contains(o.operation_id);
                assert(d.records.filter(pred).contains(all[i]));
                d.records.lemma_filter_contains_rev(pred, all[i]);
                assert(d.records.contains(all[i]));
            }
        },
        _ => {},
    }
}

/// A copy goes on until it is at its end.
proof fn lemma_copy_moves(d: Disk, v: CopyView, ch: Chance)
    requires
        session_copy::in_order(v),
        v.stage != CopyStage::Finished,
    ensures
        session_copy::steps_left(copy_step(d, v, ch).stage) < session_copy::steps_left(v.stage),
{
}

/// What does not concern a copy stays as it is, and so do the bodies as long as its record is not
/// made.
pub open spec fn rest_stands(d: Disk, e: Disk, v: CopyView, ch: Chance) -> bool {
    &&& e.bodies.remove(ch.copy.session) == d.bodies.remove(ch.copy.session)
    &&& e.owners.remove(ch.copy.session) == d.owners.remove(ch.copy.session)
    &&& e.login == d.login
    &&& e.accounts == d.accounts
    &&& e.supported == d.supported
    &&& e.bound == d.bound
    &&& e.obstacle == d.obstacle
    &&& e.link_obstacle == d.link_obstacle
    &&& v.operation is None ==> e.bodies == d.bodies
}

pub proof fn lemma_copy_run(
    start: Disk,
    d: Disk,
    v: CopyView,
    ch: Chance,
    back: bool,
    alone: bool,
)
    requires
        session_copy::in_order(v),
        parts_stand(d, v, ch),
        links_stand(d, v, ch, back),
        alone ==> records_stand(d, v, ch),
        rest_stands(start, d, v, ch),
        !start.bodies.contains_key(ch.copy.session),
    ensures
        ({
            let run = copy_run(d, v, ch);
            &&& run.1.stage == CopyStage::Finished
            &&& run.1.input == v.input
            &&& session_copy::in_order(run.1)
            &&& parts_stand(run.0, run.1, ch)
            &&& links_stand(run.0, run.1, ch, back)
            &&& alone ==> records_stand(run.0, run.1, ch)
            &&& rest_stands(start, run.0, run.1, ch)
        }),
    decreases session_copy::steps_left(v.stage),
{
    reveal(copy_run);
    if v.stage != CopyStage::Finished {
        let e = copy_effect(d, v, ch);
        let w = copy_step(d, v, ch);
        session_copy::law_copy_is_in_order(
            v.input,
            seq![],
            v,
            copy_answer(d, v, ch),
            ch.copy,
            ch.now,
        );
        lemma_copy_moves(d, v, ch);
        lemma_parts_stand(d, v, ch);
        lemma_links_stand(d, v, ch, back);
        if alone {
            lemma_records_stand(d, v, ch);
        }
        assert(e.bodies.remove(ch.copy.session) =~= d.bodies.remove(ch.copy.session));
        assert(e.owners.remove(ch.copy.session) =~= d.owners.remove(ch.copy.session));
        lemma_copy_run(start, e, w, ch, back, alone);
    }
}

// ---------------------------------------------------------------------------
// Requests that follow one another
// ---------------------------------------------------------------------------

/// Where the links hold the session, it is the one that counts for its user.
pub open spec fn source_counts(
    d: Disk,
    variant: WbVariant,
    source_uid: Seq<char>,
    id: Seq<char>,
) -> bool {
    d.store matches Some(s) ==> counts(s, variant, source_uid, id)
}

/// What a request for one session copies.
pub open spec fn input_for(
    d: Disk,
    variant: WbVariant,
    source_uid: Seq<char>,
    uid: Seq<char>,
    id: Seq<char>,
) -> InputView {
    InputView {
        variant,
        session_id: id,
        source_uid,
        source_account_id: account_of(d, source_uid),
        target_uid: uid,
        target_account_id: account_of(d, uid),
    }
}

/// A request of the user who is logged in, for another user, is let through.
pub open spec fn may_request(
    d: Disk,
    variant: WbVariant,
    source_uid: Seq<char>,
    uid: Seq<char>,
) -> bool {
    &&& d.login == Some(source_uid)
    &&& variant == WbVariant::Ai ==> d.supported
    &&& text::trim(uid) == uid
    &&& uid.len() > 0
    &&& uid != source_uid
}

/// A copy can begin: no other is under way, and the ids that chance gives are new.
pub open spec fn may_copy(
    d: Disk,
    variant: WbVariant,
    source_uid: Seq<char>,
    uid: Seq<char>,
    ch: Chance,
) -> bool {
    &&& may_request(d, variant, source_uid, uid)
    &&& is_quiet(d.records, variant)
    &&& forall|i: int|
        0 <= i < d.records.len() ==> (#[trigger] d.records[i]).operation_id != ch.copy.operation
    &&& !d.bodies.contains_key(ch.copy.session)
    &&& d.store matches Some(s) ==> awaits(s, ch)
}

/// The request ended with the report that the user has the session already, as `session_id`; and
/// that there is something to recover, or that there is nothing.
pub open spec fn reports_linked(
    w: Work,
    source_uid: Seq<char>,
    uid: Seq<char>,
    id: Seq<char>,
    session_id: Seq<char>,
    needs_recovery: bool,
) -> bool {
    exists|group_id: Seq<char>|
        w.request.report == Some(
            Ok::<_, Seq<char>>(
                copy_request::report_json(
                    source_uid,
                    uid,
                    copy_request::ListsView {
                        copied: seq![],
                        linked: seq![#[trigger] copy_request::linked_json(id, session_id, group_id)],
                        errors: seq![],
                    },
                    needs_recovery,
                ),
            ),
        )
}

pub proof fn lemma_quiet(records: Seq<OperationView>, variant: WbVariant)
    requires
        is_quiet(records, variant),
    ensures
        session_link::pending(records, variant) == Seq::<OperationView>::empty(),
    decreases records.len(),
{
    if records.len() > 0 {
        let front = records.drop_last();
        assert forall|i: int| 0 <= i < front.len() implies !session_link::is_pending(
            #[trigger] front[i],
            variant,
        ) by {
            assert(front[i] == records[i]);
        }
        lemma_quiet(front, variant);
        assert(!session_link::is_pending(records[records.len() - 1], variant));
    }
}

pub proof fn lemma_pending_is_recorded(records: Seq<OperationView>, variant: WbVariant, o: OperationView)
    requires
        session_link::pending(records, variant).contains(o),
    ensures
        records.contains(o),
        session_link::is_pending(o, variant),
    decreases records.len(),
{
    if records.len() > 0 {
        let front = records.drop_last();
        let p = session_link::pending(front, variant);
        let all = session_link::pending(records, variant);
        let k = choose|k: int| 0 <= k < all.len() && all[k] == o;
        if k < p.len() {
            assert(p[k] == o);
            lemma_pending_is_recorded(front, variant, o);
            let i = choose|i: int| 0 <= i < front.len() && front[i] == o;
            assert(records[i] == o);
        } else {
            assert(records[records.len() - 1] == o);
        }
    }
}

proof fn lemma_run_step(w: Work, ch: Chance, n: nat)
    requires
        n > 0,
        w.request.stage != RequestStage::Finished,
    ensures
        request_run(w, ch, n) == request_run(request_step(w, ch), ch, (n - 1) as nat),
{
}

/// The request at a stage before it copies.
spec fn on_the_way(
    d: Disk,
    variant: WbVariant,
    source: Option<Seq<char>>,
    uid: Seq<char>,
    id: Seq<char>,
    stage: RequestStage,
) -> Work {
    Work {
        disk: d,
        request: RequestView {
            variant,
            target_uid: Some(uid),
            session_ids: seq![id],
            source_uid: source,
            clean: true,
            results: seq![],
            stage,
            report: None,
        },
        pending: seq![],
    }
}

proof fn lemma_request_begins(
    d: Disk,
    variant: WbVariant,
    source_uid: Seq<char>,
    uid: Seq<char>,
    id: Seq<char>,
    ch: Chance,
) -> (n: nat)
    requires
        may_request(d, variant, source_uid, uid),
    ensures
        n >= 3,
        request_for(d, variant, uid, id, ch) == request_run(
            on_the_way(d, variant, Some(source_uid), uid, id, RequestStage::Recover),
            ch,
            n,
        ),
{
    let user = Some(source_uid);
    let w0 = on_the_way(d, variant, None, uid, id, RequestStage::CheckRunning);
    let w1 = on_the_way(d, variant, None, uid, id, RequestStage::CheckSupported);
    let w2 = on_the_way(d, variant, None, uid, id, RequestStage::ReadLogin);
    let w3 = on_the_way(d, variant, user, uid, id, RequestStage::AcquireLock);
    let w4 = on_the_way(d, variant, user, uid, id, RequestStage::Recheck);
    let w5 = on_the_way(d, variant, user, uid, id, RequestStage::Recover);
    let n: nat = if variant == WbVariant::Ai {
        6
    } else {
        7
    };
    assert(request_for(d, variant, uid, id, ch) == request_run(w0, ch, 8));
    lemma_run_step(w0, ch, 8);
    if variant == WbVariant::Ai {
        assert(request_step(w0, ch) == w1);
        lemma_run_step(w1, ch, 7);
        assert(request_step(w1, ch) == w2);
    } else {
        assert(request_step(w0, ch) == w2);
    }
    assert(request_run(w0, ch, 8) == request_run(w2, ch, n));
    assert(request_step(w2, ch) == w3);
    lemma_run_step(w2, ch, n);
    assert(request_step(w3, ch) == w4);
    lemma_run_step(w3, ch, (n - 1) as nat);
    assert(request_step(w4, ch) == w5);
    lemma_run_step(w4, ch, (n - 2) as nat);
    (n - 3) as nat
}

/// A request whose recovery found no record that cannot be read ends as the copy of its session
/// does.
pub proof fn lemma_request(
    d: Disk,
    variant: WbVariant,
    source_uid: Seq<char>,
    uid: Seq<char>,
    id: Seq<char>,
    ch: Chance,
    e: Disk,
    outcomes: Seq<OutcomeView>,
)
    requires
        may_request(d, variant, source_uid, uid),
        recover_all(d, session_link::pending(d.records, variant), ch) == (e, outcomes),
        copy_request::unreadable_from(
            session_recovery::full_report(seq![], outcomes).needs_recovery,
            0,
        ) is None,
        e.accounts == d.accounts,
    ensures
        ({
            let run = copy_run(
                e,
                session_copy::begun(
                    input_for(d, variant, source_uid, uid, id),
                    session_link::pending(e.records, variant),
                ),
                ch,
            );
            ends_with(
                request_for(d, variant, uid, id, ch),
                variant,
                source_uid,
                uid,
                id,
                run,
                session_recovery::full_report(seq![], outcomes).needs_recovery.len() == 0,
            )
        }),
{
    let n = lemma_request_begins(d, variant, source_uid, uid, id, ch);
    let input = input_for(d, variant, source_uid, uid, id);
    let run = copy_run(
        e,
        session_copy::begun(input, session_link::pending(e.records, variant)),
        ch,
    );
    let w5 = on_the_way(d, variant, Some(source_uid), uid, id, RequestStage::Recover);
    let w6 = request_step(w5, ch);
    lemma_run_step(w5, ch, n);
    assert(w6.request.stage == RequestStage::CopySession);
    assert(w6.disk == e);
    assert(next_input(e, w6.request) =~= input);
    let w7 = request_step(w6, ch);
    lemma_run_step(w6, ch, (n - 1) as nat);
    assert(w7.disk == run.0);
    assert(w7.request.results =~= seq![run.1.result->0]);
    assert(w7.request.stage == RequestStage::CountPending);
    let w8 = request_step(w7, ch);
    lemma_run_step(w7, ch, (n - 2) as nat);
    assert(w8.request.stage == RequestStage::Finished);
}

/// The request ended as its copy did.
pub open spec fn ends_with(
    w: Work,
    variant: WbVariant,
    source_uid: Seq<char>,
    uid: Seq<char>,
    id: Seq<char>,
    run: (Disk, CopyView),
    clean: bool,
) -> bool {
    &&& w.disk == run.0
    &&& w.request.results == seq![run.1.result->0]
    &&& w.request.report == Some(
        Ok::<_, Seq<char>>(
            copy_request::report_json(
                source_uid,
                uid,
                copy_request::sorted_out(seq![id], seq![run.1.result->0]),
                !clean || session_link::pending(run.0.records, variant).len() > 0,
            ),
        ),
    )
}

pub proof fn lemma_quiet_request(
    d: Disk,
    variant: WbVariant,
    source_uid: Seq<char>,
    uid: Seq<char>,
    id: Seq<char>,
    ch: Chance,
)
    requires
        may_request(d, variant, source_uid, uid),
        is_quiet(d.records, variant),
    ensures
        ends_with(
            request_for(d, variant, uid, id, ch),
            variant,
            source_uid,
            uid,
            id,
            copy_run(
                d,
                session_copy::begun(input_for(d, variant, source_uid, uid, id), seq![]),
                ch,
            ),
            true,
        ),
{
    lemma_quiet(d.records, variant);
    let none = Seq::<OutcomeView>::empty();
    reveal(recover_all);
    assert(recover_all(d, Seq::<OperationView>::empty(), ch) == (d, none));
    lemma_request(d, variant, source_uid, uid, id, ch, d, none);
}

pub proof fn lemma_linked_lists(
    id: Seq<char>,
    result: Result<CopyOutcomeView, Seq<char>>,
    session_id: Seq<char>,
)
    requires
        result matches Ok(CopyOutcomeView::AlreadyLinked { session_id: n, .. }) && n == session_id,
    ensures
        exists|group_id: Seq<char>|
            copy_request::sorted_out(seq![id], seq![result]) == (copy_request::ListsView {
                copied: seq![],
                linked: seq![#[trigger] copy_request::linked_json(id, session_id, group_id)],
                errors: seq![],
            }),
{
    let group_id = result->Ok_0->AlreadyLinked_group_id;
    let results = seq![result];
    assert(results.drop_last() =~= seq![]);
    reveal_with_fuel(copy_request::sorted_out, 2);
    let shown = copy_request::linked_json(id, session_id, group_id);
    assert(copy_request::sorted_out(seq![id], results) =~= copy_request::ListsView {
        copied: seq![],
        linked: seq![shown],
        errors: seq![],
    });
}

proof fn lemma_linked_report(
    d: Disk,
    variant: WbVariant,
    source_uid: Seq<char>,
    uid: Seq<char>,
    id: Seq<char>,
    ch: Chance,
    session_id: Seq<char>,
)
    requires
        may_request(d, variant, source_uid, uid),
        is_quiet(d.records, variant),
        body_of(d, id) is Ready,
        owner_of(d, id) == Some(source_uid),
        store_of(d) matches StoreStateView::Ready(s) && session_link::counterpart(
            s,
            variant,
            source_uid,
            id,
            uid,
        ) == Some(session_id),
        body_of(d, session_id) is Ready,
        owner_of(d, session_id) == Some(uid),
    ensures
        request_for(d, variant, uid, id, ch).disk == d,
        reports_linked(request_for(d, variant, uid, id, ch), source_uid, uid, id, session_id, false),
{
    let input = input_for(d, variant, source_uid, uid, id);
    let none = Seq::<OperationView>::empty();
    lemma_quiet_request(d, variant, source_uid, uid, id, ch);
    lemma_copy_is_taken(d, input, none, ch, session_id);
    lemma_quiet(d.records, variant);
    let result = copy_run(d, session_copy::begun(input, none), ch).1.result->0;
    lemma_linked_lists(id, result, session_id);
}

/// What a copy that was made has left: the source and the copy, linked, and no copy under way.
spec fn is_made(
    d: Disk,
    variant: WbVariant,
    source_uid: Seq<char>,
    uid: Seq<char>,
    id: Seq<char>,
    new_id: Seq<char>,
    back: bool,
) -> bool {
    &&& is_quiet(d.records, variant)
    &&& body_of(d, id) is Ready
    &&& body_of(d, new_id) is Ready
    &&& owner_of(d, id) == Some(source_uid)
    &&& owner_of(d, new_id) == Some(uid)
    &&& d.store matches Some(s) && linked(
        s,
        input_for(d, variant, source_uid, uid, id),
        new_id,
        back,
    )
}

/// A copy that was begun where it may be ends with what it has done on disk.
pub proof fn lemma_copy_from_start(
    d: Disk,
    variant: WbVariant,
    source_uid: Seq<char>,
    uid: Seq<char>,
    id: Seq<char>,
    ch: Chance,
    back: bool,
)
    requires
        may_copy(d, variant, source_uid, uid, ch),
        back ==> source_counts(d, variant, source_uid, id),
    ensures
        ({
            let input = input_for(d, variant, source_uid, uid, id);
            let run = copy_run(d, session_copy::begun(input, seq![]), ch);
            &&& run.1.stage == CopyStage::Finished
            &&& run.1.input == input
            &&& session_copy::in_order(run.1)
            &&& parts_stand(run.0, run.1, ch)
            &&& links_stand(run.0, run.1, ch, back)
            &&& records_stand(run.0, run.1, ch)
            &&& rest_stands(d, run.0, run.1, ch)
        }),
{
    let input = input_for(d, variant, source_uid, uid, id);
    let none = Seq::<OperationView>::empty();
    let start = session_copy::begun(input, none);
    session_copy::law_copy_is_in_order(
        input,
        none,
        start,
        CopyEventView::Done(Ok(())),
        ch.copy,
        ch.now,
    );
    lemma_copy_run(d, d, start, ch, back, true);
}

proof fn lemma_copy_is_made(
    d: Disk,
    variant: WbVariant,
    source_uid: Seq<char>,
    uid: Seq<char>,
    id: Seq<char>,
    ch: Chance,
    new_id: Seq<char>,
    back: bool,
)
    requires
        may_copy(d, variant, source_uid, uid, ch),
        back ==> source_counts(d, variant, source_uid, id),
        request_for(d, variant, uid, id, ch).request.results.len() == 1,
        request_for(d, variant, uid, id, ch).request.results[0] matches Ok(
            CopyOutcomeView::Copied { new_id: n, .. },
        ) && n == new_id,
    ensures
        ({
            let made = request_for(d, variant, uid, id, ch).disk;
            &&& is_made(made, variant, source_uid, uid, id, new_id, back)
            &&& made.login == d.login
            &&& made.supported == d.supported
        }),
{
    let input = input_for(d, variant, source_uid, uid, id);
    let run = copy_run(d, session_copy::begun(input, seq![]), ch);
    let w = request_for(d, variant, uid, id, ch);
    lemma_quiet_request(d, variant, source_uid, uid, id, ch);
    lemma_copy_from_start(d, variant, source_uid, uid, id, ch, back);
    assert(w.request.results[0] == run.1.result->0);
    assert(run.1.result is Some);
    assert(run.1.operation is Some);
}

proof fn lemma_made_copy_is_taken(
    d: Disk,
    variant: WbVariant,
    source_uid: Seq<char>,
    uid: Seq<char>,
    id: Seq<char>,
    new_id: Seq<char>,
    ch: Chance,
    back: bool,
)
    requires
        is_made(d, variant, source_uid, uid, id, new_id, back),
    ensures
        may_request(d, variant, source_uid, uid) ==> {
            let again = request_for(d, variant, uid, id, ch);
            again.disk == d && reports_linked(again, source_uid, uid, id, new_id, false)
        },
        back && may_request(d, variant, uid, source_uid) ==> {
            let other = request_for(d, variant, source_uid, new_id, ch);
            other.disk == d && reports_linked(other, uid, source_uid, new_id, id, false)
        },
{
    if may_request(d, variant, source_uid, uid) {
        lemma_linked_report(d, variant, source_uid, uid, id, ch, new_id);
    }
    if back && may_request(d, variant, uid, source_uid) {
        lemma_linked_report(d, variant, uid, source_uid, new_id, ch, id);
    }
}

/// A session that was copied is not copied again: the same request, made once more, reports the
/// copy that was made, and the same session asked for from the other side is the one that it was
/// copied from, where that counts for its user. Neither request changes anything on disk.
pub proof fn law_copy_is_made_once(
    d: Disk,
    variant: WbVariant,
    source_uid: Seq<char>,
    uid: Seq<char>,
    id: Seq<char>,
    ch: Chance,
    later: Chance,
    new_id: Seq<char>,
)
    requires
        may_copy(d, variant, source_uid, uid, ch),
        request_for(d, variant, uid, id, ch).request.results.len() == 1,
        request_for(d, variant, uid, id, ch).request.results[0] matches Ok(
            CopyOutcomeView::Copied { new_id: n, .. },
        ) && n == new_id,
    ensures
        ({
            let made = request_for(d, variant, uid, id, ch).disk;
            let again = request_for(made, variant, uid, id, later);
            &&& again.disk == made
            &&& reports_linked(again, source_uid, uid, id, new_id, false)
        }),
        text::trim(source_uid) == source_uid && source_uid.len() > 0 && source_counts(
            d,
            variant,
            source_uid,
            id,
        ) ==> {
            let made = request_for(d, variant, uid, id, ch).disk;
            let other = Disk { login: Some(uid), ..made };
            let back = request_for(other, variant, source_uid, new_id, later);
            &&& back.disk == other
            &&& reports_linked(back, uid, source_uid, new_id, id, false)
        },
{
    let made = request_for(d, variant, uid, id, ch).disk;
    let other = Disk { login: Some(uid), ..made };
    let back = source_counts(d, variant, source_uid, id);
    lemma_copy_is_made(d, variant, source_uid, uid, id, ch, new_id, back);
    lemma_made_copy_is_taken(made, variant, source_uid, uid, id, new_id, later, back);
    assert(is_made(other, variant, source_uid, uid, id, new_id, back));
    lemma_made_copy_is_taken(other, variant, source_uid, uid, id, new_id, later, back);
}

/// To put a copy down keeps it that no two groups have one id.
pub proof fn law_commit_keeps_groups_distinct(
    s: StoreView,
    o: OperationView,
    variant: WbVariant,
    lines: Seq<Seq<char>>,
    records: Seq<BaselineView>,
    ids: LinkIdsView,
    now: i64,
)
    requires
        groups_distinct(s),
    ensures
        groups_distinct(session_link::committed(s, o, variant, lines, records, ids, now)),
{
    let all = session_link::committed(s, o, variant, lines, records, ids, now);
    session_link::lemma_group_from(s.groups, o.group_id, 0);
    assert forall|i: int, j: int| 0 <= i < j < all.groups.len() implies (
    #[trigger] all.groups[i]).id != (#[trigger] all.groups[j]).id by {
        if j < s.groups.len() {
            assert(s.groups[i].id != s.groups[j].id);
        } else {
            assert(s.groups[i].id != o.group_id);
        }
    }
}

} // verus!
