//! Links between the copies of a session: which sessions of which accounts are one session, what
//! two of them last had in common, and the records of copies that are under way.

use vstd::prelude::*;

use crate::text;
use crate::variant::WbVariant;

verus! {

/// The version of the records of operations.
pub const OPERATION_VERSION: u32 = 1;

/// The version of the store of links.
pub const STORE_VERSION: u32 = 1;

/// The version of the way in which bodies are compared.
pub const NORMALIZATION_VERSION: u32 = 1;

/// How many records of operations that are done are kept.
pub const KEEP_COMPLETED_OPERATIONS: usize = 20;

/// How the complaints about a lock begin: another holds it, or it cannot be had at all.
pub const LOCK_BUSY_MESSAGE_PREFIX: &'static str = "另一个会话操作正在进行";

pub const LOCK_UNAVAILABLE_MESSAGE_PREFIX: &'static str = "无法建立会话操作互斥";

// ---------------------------------------------------------------------------
// Ids
// ---------------------------------------------------------------------------

pub open spec fn is_hex_digit(c: char) -> bool {
    '0' <= c <= '9' || 'a' <= c <= 'f'
}

/// The text is a random id: thirty-two hexadecimal digits in five groups, of version 4.
pub open spec fn is_uuid(t: Seq<char>) -> bool {
    &&& t.len() == 36
    &&& forall|i: int|
        0 <= i < 36 ==> if i == 8 || i == 13 || i == 18 || i == 23 {
            #[trigger] t[i] == '-'
        } else {
            is_hex_digit(t[i])
        }
    &&& t[14] == '4'
}

/// `uuid::Uuid::new_v4`, printed: a random id in its usual form. Nothing is stated of which id
/// it is; that is left to chance.
#[verifier::external_body]
pub(crate) fn new_id() -> (r: String)
    ensures
        is_uuid(r@),
{
    uuid::Uuid::new_v4().to_string()
}

// ---------------------------------------------------------------------------
// Operations
// ---------------------------------------------------------------------------

/// How far a copy has got.
#[derive(Clone, Copy, PartialEq, Eq, Structural, Debug)]
pub enum OpPhase {
    Prepared,
    BodyWritten,
    DbWritten,
    MappingWritten,
    LinksCommitted,
    Completed,
    Abandoned,
}

/// The place of a phase in the order of phases.
pub open spec fn phase_rank(phase: OpPhase) -> int {
    match phase {
        OpPhase::Prepared => 0,
        OpPhase::BodyWritten => 1,
        OpPhase::DbWritten => 2,
        OpPhase::MappingWritten => 3,
        OpPhase::LinksCommitted => 4,
        OpPhase::Completed => 5,
        OpPhase::Abandoned => 6,
    }
}

impl OpPhase {
    fn number(self) -> (r: u8)
        ensures
            r == phase_rank(self),
    {
        match self {
            OpPhase::Prepared => 0,
            OpPhase::BodyWritten => 1,
            OpPhase::DbWritten => 2,
            OpPhase::MappingWritten => 3,
            OpPhase::LinksCommitted => 4,
            OpPhase::Completed => 5,
            OpPhase::Abandoned => 6,
        }
    }

    /// Whether the phase is `other` or a later one.
    pub fn reached(self, other: OpPhase) -> (r: bool)
        ensures
            r == (phase_rank(self) >= phase_rank(other)),
    {
        self.number() >= other.number()
    }

    /// Whether there is still something to do.
    pub fn is_unfinished(self) -> (r: bool)
        ensures
            r == unfinished(self),
    {
        !self.reached(OpPhase::Completed)
    }
}

pub open spec fn unfinished(phase: OpPhase) -> bool {
    phase != OpPhase::Completed && phase != OpPhase::Abandoned
}

/// One side of a copy.
#[derive(Clone, Debug, PartialEq, Eq)]
pub struct OperationMember {
    pub account_id: Option<String>,
    pub uid: String,
    pub session_id: String,
}

#[verifier::ext_equal]
pub struct OperationMemberView {
    pub account_id: Option<Seq<char>>,
    pub uid: Seq<char>,
    pub session_id: Seq<char>,
}

impl OperationMember {
    pub open spec fn view(&self) -> OperationMemberView {
        OperationMemberView {
            account_id: text::opt_text(self.account_id),
            uid: self.uid@,
            session_id: self.session_id@,
        }
    }
}

/// The record of a copy. It is kept before anything is written, with the id that the copy will
/// have.
#[derive(Clone, Debug, PartialEq, Eq)]
pub struct Operation {
    pub version: u32,
    pub operation_id: String,
    pub kind: String,
    pub variant: WbVariant,
    pub group_id: String,
    pub source: OperationMember,
    pub target: OperationMember,
    pub expected_content_digest: String,
    pub expected_record_count: u64,
    pub phase: OpPhase,
    pub backup: Option<String>,
    pub last_error: Option<String>,
    pub created_at: i64,
    pub updated_at: i64,
}

#[verifier::ext_equal]
pub struct OperationView {
    pub version: u32,
    pub operation_id: Seq<char>,
    pub kind: Seq<char>,
    pub variant: WbVariant,
    pub group_id: Seq<char>,
    pub source: OperationMemberView,
    pub target: OperationMemberView,
    pub expected_content_digest: Seq<char>,
    pub expected_record_count: u64,
    pub phase: OpPhase,
    pub backup: Option<Seq<char>>,
    pub last_error: Option<Seq<char>>,
    pub created_at: i64,
    pub updated_at: i64,
}

impl Operation {
    pub open spec fn view(&self) -> OperationView {
        OperationView {
            version: self.version,
            operation_id: self.operation_id@,
            kind: self.kind@,
            variant: self.variant,
            group_id: self.group_id@,
            source: self.source@,
            target: self.target@,
            expected_content_digest: self.expected_content_digest@,
            expected_record_count: self.expected_record_count,
            phase: self.phase,
            backup: text::opt_text(self.backup),
            last_error: text::opt_text(self.last_error),
            created_at: self.created_at,
            updated_at: self.updated_at,
        }
    }
}

/// The record once the phase is reached: a phase that was passed is not put down again.
pub open spec fn phase_advanced(operation: OperationView, phase: OpPhase, now: i64) -> OperationView {
    if phase_rank(operation.phase) >= phase_rank(phase) {
        operation
    } else {
        OperationView { phase, updated_at: now, ..operation }
    }
}

/// Puts down in the record that the phase is reached; whether that is new, so that the record is
/// to be saved.
pub fn advance_operation(operation: &mut Operation, phase: OpPhase, now: i64) -> (r: bool)
    ensures
        final(operation)@ == phase_advanced(old(operation)@, phase, now),
        r == (phase_rank(old(operation).phase) < phase_rank(phase)),
        !r ==> *final(operation) == *old(operation),
{
    if operation.phase.reached(phase) {
        return false;
    }
    operation.phase = phase;
    operation.updated_at = now;
    true
}

pub open spec fn operation_views(operations: Seq<Operation>) -> Seq<OperationView> {
    operations.map_values(|o: Operation| o@)
}

/// The operation is of the edition and still has something to do.
pub open spec fn is_pending(operation: OperationView, variant: WbVariant) -> bool {
    operation.variant == variant && unfinished(operation.phase)
}

/// The operations of the edition that still have something to do.
pub open spec fn pending(operations: Seq<OperationView>, variant: WbVariant) -> Seq<OperationView>
    decreases operations.len(),
{
    if operations.len() == 0 {
        seq![]
    } else if is_pending(operations.last(), variant) {
        pending(operations.drop_last(), variant).push(operations.last())
    } else {
        pending(operations.drop_last(), variant)
    }
}

/// The operations of the edition that still have something to do.
pub fn pending_operations(operations: Vec<Operation>, variant: WbVariant) -> (r: Vec<Operation>)
    ensures
        operation_views(r@) == pending(operation_views(operations@), variant),
{
    let ghost views = operation_views(operations@);
    let mut rest = operations;
    let mut out: Vec<Operation> = Vec::new();
    let ghost mut n: int = 0;
    assert(operation_views(out@) =~= seq![]);
    while rest.len() > 0
        invariant
            0 <= n <= views.len(),
            rest@.len() == views.len() - n,
            forall|j: int| 0 <= j < rest@.len() ==> #[trigger] rest@[j]@ == views[n + j],
            operation_views(out@) == pending(views.take(n), variant),
        decreases rest@.len(),
    {
        let ghost before = rest@;
        let ghost kept = operation_views(out@);
        let operation = rest.remove(0);
        proof {
            assert(before[0]@ == views[n]);
            assert(views.take(n + 1).drop_last() =~= views.take(n));
            assert forall|j: int| 0 <= j < rest@.len() implies #[trigger] rest@[j]@ == views[n + 1
                + j] by {
                assert(before[j + 1]@ == views[n + (j + 1)]);
            }
            n = n + 1;
        }
        let ghost o = operation@;
        if operation.variant == variant && operation.phase.is_unfinished() {
            out.push(operation);
            assert(operation_views(out@) =~= kept.push(o));
        }
    }
    assert(views.take(n) =~= views);
    out
}

/// The operation is of the request to copy the session for the user.
pub open spec fn is_of_request(
    operation: OperationView,
    source_uid: Seq<char>,
    session_id: Seq<char>,
    target_uid: Seq<char>,
) -> bool {
    operation.source.uid == source_uid && operation.source.session_id == session_id
        && operation.target.uid == target_uid
}

/// The first position at or after `from` of an operation of the request.
pub open spec fn request_from(
    operations: Seq<OperationView>,
    source_uid: Seq<char>,
    session_id: Seq<char>,
    target_uid: Seq<char>,
    from: int,
) -> Option<int>
    decreases operations.len() - from,
{
    if from < 0 || from >= operations.len() {
        None
    } else if is_of_request(operations[from], source_uid, session_id, target_uid) {
        Some(from)
    } else {
        request_from(operations, source_uid, session_id, target_uid, from + 1)
    }
}

/// The position of the first operation of the request.
pub fn find_pending_operation(
    operations: &Vec<Operation>,
    source_uid: &str,
    session_id: &str,
    target_uid: &str,
) -> (r: Option<usize>)
    ensures
        match r {
            Some(i) => i < operations@.len() && request_from(
                operation_views(operations@),
                source_uid@,
                session_id@,
                target_uid@,
                0,
            ) == Some(i as int),
            None => request_from(
                operation_views(operations@),
                source_uid@,
                session_id@,
                target_uid@,
                0,
            ) is None,
        },
{
    let ghost views = operation_views(operations@);
    let mut i: usize = 0;
    while i < operations.len()
        invariant
            i <= operations@.len(),
            views == operation_views(operations@),
            request_from(views, source_uid@, session_id@, target_uid@, 0) == request_from(
                views,
                source_uid@,
                session_id@,
                target_uid@,
                i as int,
            ),
        decreases operations@.len() - i,
    {
        assert(views[i as int] == operations@[i as int]@);
        if text::same_text(operations[i].source.uid.as_str(), source_uid) && text::same_text(
            operations[i].source.session_id.as_str(),
            session_id,
        ) && text::same_text(operations[i].target.uid.as_str(), target_uid) {
            return Some(i);
        }
        i += 1;
    }
    None
}

// ---------------------------------------------------------------------------
// Recovery reports
// ---------------------------------------------------------------------------

/// A copy that could not be brought to an end.
#[derive(Debug, PartialEq, Eq)]
pub struct RecoveryIssue {
    pub operation_id: String,
    pub reason: String,
    /// Another try may succeed.
    pub retryable: bool,
}

#[verifier::ext_equal]
pub struct IssueView {
    pub operation_id: Seq<char>,
    pub reason: Seq<char>,
    pub retryable: bool,
}

impl RecoveryIssue {
    pub open spec fn view(&self) -> IssueView {
        IssueView {
            operation_id: self.operation_id@,
            reason: self.reason@,
            retryable: self.retryable,
        }
    }
}

pub open spec fn issue_views(issues: Seq<RecoveryIssue>) -> Seq<IssueView> {
    issues.map_values(|i: RecoveryIssue| i@)
}

/// What became of the copies that were under way.
#[derive(Debug, PartialEq, Eq)]
pub struct RecoveryReport {
    pub recovered: Vec<String>,
    pub abandoned: Vec<String>,
    pub needs_recovery: Vec<RecoveryIssue>,
}

#[verifier::ext_equal]
pub struct ReportView {
    pub recovered: Seq<Seq<char>>,
    pub abandoned: Seq<Seq<char>>,
    pub needs_recovery: Seq<IssueView>,
}

impl RecoveryReport {
    pub open spec fn view(&self) -> ReportView {
        ReportView {
            recovered: text::texts(self.recovered@),
            abandoned: text::texts(self.abandoned@),
            needs_recovery: issue_views(self.needs_recovery@),
        }
    }

    /// Whether nothing is left to be recovered.
    pub fn is_clean(&self) -> (r: bool)
        ensures
            r == (self@.needs_recovery.len() == 0),
    {
        self.needs_recovery.len() == 0
    }

    /// Whether there was nothing to recover.
    pub fn is_empty(&self) -> (r: bool)
        ensures
            r == (self@.recovered.len() == 0 && self@.abandoned.len() == 0
                && self@.needs_recovery.len() == 0),
    {
        self.recovered.len() == 0 && self.abandoned.len() == 0 && self.needs_recovery.len() == 0
    }
}

// ---------------------------------------------------------------------------
// Bodies
// ---------------------------------------------------------------------------

/// What is compared of a body: a digest of the whole, and one of each line, with the session's
/// own id left out.
#[derive(Clone, Debug, PartialEq, Eq)]
pub struct NormalizedContent {
    pub total_digest: String,
    pub record_count: u64,
    pub line_digests: Vec<String>,
}

#[verifier::ext_equal]
pub struct ContentView {
    pub total_digest: Seq<char>,
    pub record_count: u64,
    pub line_digests: Seq<Seq<char>>,
}

impl NormalizedContent {
    pub open spec fn view(&self) -> ContentView {
        ContentView {
            total_digest: self.total_digest@,
            record_count: self.record_count,
            line_digests: text::texts(self.line_digests@),
        }
    }
}

/// What was found of a body.
#[derive(Debug, PartialEq, Eq)]
pub enum ContentState {
    Ready(NormalizedContent),
    Missing,
    Unavailable(String),
}

#[verifier::ext_equal]
pub enum ContentStateView {
    Ready(ContentView),
    Missing,
    Unavailable(Seq<char>),
}

impl ContentState {
    pub open spec fn view(&self) -> ContentStateView {
        match self {
            ContentState::Ready(c) => ContentStateView::Ready(c@),
            ContentState::Missing => ContentStateView::Missing,
            ContentState::Unavailable(e) => ContentStateView::Unavailable(e@),
        }
    }
}

/// What two sessions had in common, line by line.
#[derive(Clone, Debug, PartialEq, Eq)]
pub struct BaselineRecord {
    pub baseline_ref: String,
    pub line_digests: Vec<String>,
}

#[verifier::ext_equal]
pub struct BaselineView {
    pub baseline_ref: Seq<char>,
    pub line_digests: Seq<Seq<char>>,
}

impl BaselineRecord {
    pub open spec fn view(&self) -> BaselineView {
        BaselineView {
            baseline_ref: self.baseline_ref@,
            line_digests: text::texts(self.line_digests@),
        }
    }
}

pub open spec fn baseline_views(records: Seq<BaselineRecord>) -> Seq<BaselineView> {
    records.map_values(|r: BaselineRecord| r@)
}

/// Some record has the reference, and what it holds are the first of the lines.
pub open spec fn inheritable(
    records: Seq<BaselineView>,
    baseline_ref: Seq<char>,
    lines: Seq<Seq<char>>,
) -> bool {
    exists|i: int|
        0 <= i < records.len() && (#[trigger] records[i]).baseline_ref == baseline_ref
            && records[i].line_digests.is_prefix_of(lines)
}

fn is_prefix(part: &Vec<String>, lines: &Vec<String>) -> (r: bool)
    ensures
        r == text::texts(part@).is_prefix_of(text::texts(lines@)),
{
    let ghost a = text::texts(part@);
    let ghost b = text::texts(lines@);
    if part.len() > lines.len() {
        return false;
    }
    let mut i: usize = 0;
    while i < part.len()
        invariant
            i <= part@.len() <= lines@.len(),
            a == text::texts(part@),
            b == text::texts(lines@),
            forall|j: int| 0 <= j < i ==> #[trigger] a[j] == b[j],
        decreases part@.len() - i,
    {
        if !text::same_text(part[i].as_str(), lines[i].as_str()) {
            assert(a[i as int] != b.subrange(0, a.len() as int)[i as int]);
            return false;
        }
        i += 1;
    }
    assert(a =~= b.subrange(0, a.len() as int));
    true
}

/// Whether a session that has the lines has what the baseline holds as its first ones, so that
/// the baseline is common to it too.
pub fn inheritable_baseline(
    records: &Vec<BaselineRecord>,
    baseline_ref: &str,
    lines: &Vec<String>,
) -> (r: bool)
    ensures
        r == inheritable(baseline_views(records@), baseline_ref@, text::texts(lines@)),
{
    let ghost views = baseline_views(records@);
    let mut i: usize = 0;
    while i < records.len()
        invariant
            i <= records@.len(),
            views == baseline_views(records@),
            forall|j: int|
                0 <= j < i ==> !((#[trigger] views[j]).baseline_ref == baseline_ref@
                    && views[j].line_digests.is_prefix_of(text::texts(lines@))),
        decreases records@.len() - i,
    {
        assert(views[i as int] == records@[i as int]@);
        if text::same_text(records[i].baseline_ref.as_str(), baseline_ref) && is_prefix(
            &records[i].line_digests,
            lines,
        ) {
            assert(views[i as int].baseline_ref == baseline_ref@);
            return true;
        }
        i += 1;
    }
    false
}

// ---------------------------------------------------------------------------
// The store of links
// ---------------------------------------------------------------------------

/// Whether a member is the session that counts for its account.
#[derive(Clone, Copy, PartialEq, Eq, Structural, Debug)]
pub enum MemberState {
    Active,
    Superseded,
}

/// A session of an account.
#[derive(Clone, Debug, PartialEq, Eq)]
pub struct LinkMember {
    pub member_id: String,
    pub account_id: Option<String>,
    pub uid: String,
    pub session_id: String,
    pub state: MemberState,
    pub linked_at: i64,
    pub last_synced_at: Option<i64>,
}

#[verifier::ext_equal]
pub struct MemberView {
    pub member_id: Seq<char>,
    pub account_id: Option<Seq<char>>,
    pub uid: Seq<char>,
    pub session_id: Seq<char>,
    pub state: MemberState,
    pub linked_at: i64,
    pub last_synced_at: Option<i64>,
}

impl LinkMember {
    pub open spec fn view(&self) -> MemberView {
        MemberView {
            member_id: self.member_id@,
            account_id: text::opt_text(self.account_id),
            uid: self.uid@,
            session_id: self.session_id@,
            state: self.state,
            linked_at: self.linked_at,
            last_synced_at: self.last_synced_at,
        }
    }
}

pub open spec fn member_views(members: Seq<LinkMember>) -> Seq<MemberView> {
    members.map_values(|m: LinkMember| m@)
}

/// What two members last had in common.
#[derive(Clone, Debug, PartialEq, Eq)]
pub struct PairBase {
    pub left: String,
    pub right: String,
    pub baseline_ref: String,
    pub normalization_version: u32,
}

#[verifier::ext_equal]
pub struct PairView {
    pub left: Seq<char>,
    pub right: Seq<char>,
    pub baseline_ref: Seq<char>,
    pub normalization_version: u32,
}

impl PairBase {
    pub open spec fn view(&self) -> PairView {
        PairView {
            left: self.left@,
            right: self.right@,
            baseline_ref: self.baseline_ref@,
            normalization_version: self.normalization_version,
        }
    }
}

pub open spec fn pair_views(pairs: Seq<PairBase>) -> Seq<PairView> {
    pairs.map_values(|p: PairBase| p@)
}

/// The sessions that are one session.
#[derive(Clone, Debug, PartialEq, Eq)]
pub struct LinkGroup {
    pub id: String,
    pub variant: WbVariant,
    pub created_at: i64,
    pub members: Vec<LinkMember>,
    pub pair_bases: Vec<PairBase>,
}

#[verifier::ext_equal]
pub struct GroupView {
    pub id: Seq<char>,
    pub variant: WbVariant,
    pub created_at: i64,
    pub members: Seq<MemberView>,
    pub pair_bases: Seq<PairView>,
}

impl LinkGroup {
    pub open spec fn view(&self) -> GroupView {
        GroupView {
            id: self.id@,
            variant: self.variant,
            created_at: self.created_at,
            members: member_views(self.members@),
            pair_bases: pair_views(self.pair_bases@),
        }
    }
}

pub open spec fn group_views(groups: Seq<LinkGroup>) -> Seq<GroupView> {
    groups.map_values(|g: LinkGroup| g@)
}

/// All links, and how often they were written.
#[derive(Clone, Debug, PartialEq, Eq)]
pub struct LinkStore {
    pub version: u32,
    pub revision: u64,
    pub groups: Vec<LinkGroup>,
}

#[verifier::ext_equal]
pub struct StoreView {
    pub version: u32,
    pub revision: u64,
    pub groups: Seq<GroupView>,
}

impl LinkStore {
    pub open spec fn view(&self) -> StoreView {
        StoreView {
            version: self.version,
            revision: self.revision,
            groups: group_views(self.groups@),
        }
    }
}

/// What was found of the store.
#[derive(Debug, PartialEq, Eq)]
pub enum StoreState {
    Missing,
    Ready(LinkStore),
    Unavailable(String),
}

#[verifier::ext_equal]
pub enum StoreStateView {
    Missing,
    Ready(StoreView),
    Unavailable(Seq<char>),
}

impl StoreState {
    pub open spec fn view(&self) -> StoreStateView {
        match self {
            StoreState::Missing => StoreStateView::Missing,
            StoreState::Ready(s) => StoreStateView::Ready(s@),
            StoreState::Unavailable(e) => StoreStateView::Unavailable(e@),
        }
    }
}

/// The first position at or after `from` of the session of the user.
pub open spec fn member_from(
    members: Seq<MemberView>,
    uid: Seq<char>,
    session_id: Seq<char>,
    from: int,
) -> Option<int>
    decreases members.len() - from,
{
    if from < 0 || from >= members.len() {
        None
    } else if members[from].uid == uid && members[from].session_id == session_id {
        Some(from)
    } else {
        member_from(members, uid, session_id, from + 1)
    }
}

/// The first position at or after `from` of the session that counts for the user.
pub open spec fn active_from(members: Seq<MemberView>, uid: Seq<char>, from: int) -> Option<int>
    decreases members.len() - from,
{
    if from < 0 || from >= members.len() {
        None
    } else if members[from].uid == uid && members[from].state == MemberState::Active {
        Some(from)
    } else {
        active_from(members, uid, from + 1)
    }
}

/// The first position at or after `from` of the group with the id.
pub open spec fn group_from(groups: Seq<GroupView>, id: Seq<char>, from: int) -> Option<int>
    decreases groups.len() - from,
{
    if from < 0 || from >= groups.len() {
        None
    } else if groups[from].id == id {
        Some(from)
    } else {
        group_from(groups, id, from + 1)
    }
}

/// The group is of the edition and holds the session of the user.
pub open spec fn holds_identity(
    group: GroupView,
    variant: WbVariant,
    uid: Seq<char>,
    session_id: Seq<char>,
) -> bool {
    group.variant == variant && member_from(group.members, uid, session_id, 0) is Some
}

/// The first position at or after `from` of a group of the edition that holds the session of the
/// user.
pub open spec fn identity_from(
    groups: Seq<GroupView>,
    variant: WbVariant,
    uid: Seq<char>,
    session_id: Seq<char>,
    from: int,
) -> Option<int>
    decreases groups.len() - from,
{
    if from < 0 || from >= groups.len() {
        None
    } else if holds_identity(groups[from], variant, uid, session_id) {
        Some(from)
    } else {
        identity_from(groups, variant, uid, session_id, from + 1)
    }
}

/// The pair is of the two members, in either order.
pub open spec fn is_pair(pair: PairView, a: Seq<char>, b: Seq<char>) -> bool {
    (pair.left == a && pair.right == b) || (pair.left == b && pair.right == a)
}

/// The first position at or after `from` of the pair of the two members.
pub open spec fn pair_from(
    pairs: Seq<PairView>,
    a: Seq<char>,
    b: Seq<char>,
    from: int,
) -> Option<int>
    decreases pairs.len() - from,
{
    if from < 0 || from >= pairs.len() {
        None
    } else if is_pair(pairs[from], a, b) {
        Some(from)
    } else {
        pair_from(pairs, a, b, from + 1)
    }
}

/// The position of the session of the user.
pub fn find_member(group: &LinkGroup, uid: &str, session_id: &str) -> (r: Option<usize>)
    ensures
        match r {
            Some(i) => i < group.members@.len() && member_from(
                group@.members,
                uid@,
                session_id@,
                0,
            ) == Some(i as int),
            None => member_from(group@.members, uid@, session_id@, 0) is None,
        },
{
    let ghost views = member_views(group.members@);
    let mut i: usize = 0;
    while i < group.members.len()
        invariant
            i <= group.members@.len(),
            views == member_views(group.members@),
            member_from(views, uid@, session_id@, 0) == member_from(
                views,
                uid@,
                session_id@,
                i as int,
            ),
        decreases group.members@.len() - i,
    {
        assert(views[i as int] == group.members@[i as int]@);
        if text::same_text(group.members[i].uid.as_str(), uid) && text::same_text(
            group.members[i].session_id.as_str(),
            session_id,
        ) {
            return Some(i);
        }
        i += 1;
    }
    None
}

/// The position of the session that counts for the user.
pub fn active_member_for(group: &LinkGroup, uid: &str) -> (r: Option<usize>)
    ensures
        match r {
            Some(i) => i < group.members@.len() && active_from(group@.members, uid@, 0) == Some(
                i as int,
            ),
            None => active_from(group@.members, uid@, 0) is None,
        },
{
    let ghost views = member_views(group.members@);
    let mut i: usize = 0;
    while i < group.members.len()
        invariant
            i <= group.members@.len(),
            views == member_views(group.members@),
            active_from(views, uid@, 0) == active_from(views, uid@, i as int),
        decreases group.members@.len() - i,
    {
        assert(views[i as int] == group.members@[i as int]@);
        if text::same_text(group.members[i].uid.as_str(), uid) && group.members[i].state
            == MemberState::Active {
            return Some(i);
        }
        i += 1;
    }
    None
}

/// The position of the group with the id.
pub fn find_group(store: &LinkStore, id: &str) -> (r: Option<usize>)
    ensures
        match r {
            Some(i) => i < store.groups@.len() && group_from(store@.groups, id@, 0) == Some(
                i as int,
            ),
            None => group_from(store@.groups, id@, 0) is None,
        },
{
    let ghost views = group_views(store.groups@);
    let mut i: usize = 0;
    while i < store.groups.len()
        invariant
            i <= store.groups@.len(),
            views == group_views(store.groups@),
            group_from(views, id@, 0) == group_from(views, id@, i as int),
        decreases store.groups@.len() - i,
    {
        assert(views[i as int] == store.groups@[i as int]@);
        if text::same_text(store.groups[i].id.as_str(), id) {
            return Some(i);
        }
        i += 1;
    }
    None
}

/// The position of the group of the edition that holds the session of the user.
pub fn find_group_for_identity(
    store: &LinkStore,
    variant: WbVariant,
    uid: &str,
    session_id: &str,
) -> (r: Option<usize>)
    ensures
        match r {
            Some(i) => i < store.groups@.len() && identity_from(
                store@.groups,
                variant,
                uid@,
                session_id@,
                0,
            ) == Some(i as int),
            None => identity_from(store@.groups, variant, uid@, session_id@, 0) is None,
        },
{
    let ghost views = group_views(store.groups@);
    let mut i: usize = 0;
    while i < store.groups.len()
        invariant
            i <= store.groups@.len(),
            views == group_views(store.groups@),
            identity_from(views, variant, uid@, session_id@, 0) == identity_from(
                views,
                variant,
                uid@,
                session_id@,
                i as int,
            ),
        decreases store.groups@.len() - i,
    {
        assert(views[i as int] == store.groups@[i as int]@);
        if store.groups[i].variant == variant && find_member(
            &store.groups[i],
            uid,
            session_id,
        ).is_some() {
            return Some(i);
        }
        i += 1;
    }
    None
}

/// The position of the pair of the two members.
pub fn find_pair_base(group: &LinkGroup, a: &str, b: &str) -> (r: Option<usize>)
    ensures
        match r {
            Some(i) => i < group.pair_bases@.len() && pair_from(
                group@.pair_bases,
                a@,
                b@,
                0,
            ) == Some(i as int),
            None => pair_from(group@.pair_bases, a@, b@, 0) is None,
        },
{
    let ghost views = pair_views(group.pair_bases@);
    let mut i: usize = 0;
    while i < group.pair_bases.len()
        invariant
            i <= group.pair_bases@.len(),
            views == pair_views(group.pair_bases@),
            pair_from(views, a@, b@, 0) == pair_from(views, a@, b@, i as int),
        decreases group.pair_bases@.len() - i,
    {
        assert(views[i as int] == group.pair_bases@[i as int]@);
        let left = group.pair_bases[i].left.as_str();
        let right = group.pair_bases[i].right.as_str();
        if (text::same_text(left, a) && text::same_text(right, b)) || (text::same_text(left, b)
            && text::same_text(right, a)) {
            return Some(i);
        }
        i += 1;
    }
    None
}

// ---------------------------------------------------------------------------
// Changing a group
// ---------------------------------------------------------------------------

/// The member, superseded where it is one of the user's.
pub open spec fn stepped_down(m: MemberView, uid: Seq<char>) -> MemberView {
    if m.uid == uid {
        MemberView { state: MemberState::Superseded, ..m }
    } else {
        m
    }
}

/// The members with none of the user's counting.
pub open spec fn superseded(members: Seq<MemberView>, uid: Seq<char>) -> Seq<MemberView> {
    members.map_values(|m: MemberView| stepped_down(m, uid))
}

/// The members with one more, which counts for its user in place of those that did.
pub open spec fn with_active(members: Seq<MemberView>, m: MemberView) -> Seq<MemberView> {
    superseded(members, m.uid).push(m)
}

/// The members with the one at `i` counting for its user in place of those that did.
pub open spec fn activated(members: Seq<MemberView>, i: int) -> Seq<MemberView> {
    superseded(members, members[i].uid).update(
        i,
        MemberView { state: MemberState::Active, ..members[i] },
    )
}

/// The pairs with what the two members have in common put down.
pub open spec fn with_pair(
    pairs: Seq<PairView>,
    a: Seq<char>,
    b: Seq<char>,
    baseline_ref: Seq<char>,
    version: u32,
) -> Seq<PairView> {
    let pair = PairView { left: a, right: b, baseline_ref, normalization_version: version };
    match pair_from(pairs, a, b, 0) {
        Some(i) => pairs.update(i, pair),
        None => pairs.push(pair),
    }
}

fn supersede(members: &mut Vec<LinkMember>, uid: &str)
    ensures
        member_views(final(members)@) == superseded(member_views(old(members)@), uid@),
{
    let ghost views = member_views(members@);
    let n: usize = members.len();
    let mut i: usize = 0;
    while i < n
        invariant
            n == views.len(),
            i <= n,
            members@.len() == n,
            forall|j: int| 0 <= j < i ==> #[trigger] members@[j]@ == stepped_down(views[j], uid@),
            forall|j: int| i <= j < n ==> #[trigger] members@[j]@ == views[j],
        decreases n - i,
    {
        assert(members@[i as int]@ == views[i as int]);
        if text::same_text(members[i].uid.as_str(), uid) {
            members[i].state = MemberState::Superseded;
        }
        i += 1;
    }
    assert(member_views(members@) =~= superseded(views, uid@));
}

/// Adds a member, which counts for its user in place of those that did; those are kept.
pub fn add_active_member(group: &mut LinkGroup, member: LinkMember)
    ensures
        final(group)@ == (GroupView {
            members: with_active(old(group)@.members, member@),
            ..old(group)@
        }),
{
    let ghost m = member@;
    supersede(&mut group.members, member.uid.as_str());
    let ghost before = member_views(group.members@);
    group.members.push(member);
    assert(member_views(group.members@) =~= before.push(m));
}

/// Makes a member count for its user in place of those that did.
pub fn activate_member(group: &mut LinkGroup, i: usize)
    requires
        i < old(group).members@.len(),
    ensures
        final(group)@ == (GroupView {
            members: activated(old(group)@.members, i as int),
            ..old(group)@
        }),
{
    let ghost views = member_views(group.members@);
    let uid = group.members[i].uid.clone();
    supersede(&mut group.members, uid.as_str());
    assert(group.members@.len() == member_views(group.members@).len() == views.len());
    assert(member_views(group.members@)[i as int] == stepped_down(views[i as int], uid@));
    group.members[i].state = MemberState::Active;
    assert(member_views(group.members@) =~= activated(views, i as int));
}

/// Puts down what two members have in common.
pub fn set_pair_base(group: &mut LinkGroup, a: &str, b: &str, baseline_ref: &str, version: u32)
    ensures
        final(group)@ == (GroupView {
            pair_bases: with_pair(old(group)@.pair_bases, a@, b@, baseline_ref@, version),
            ..old(group)@
        }),
{
    let ghost views = pair_views(group.pair_bases@);
    let found: Option<usize> = find_pair_base(group, a, b);
    let pair = PairBase {
        left: a.to_owned(),
        right: b.to_owned(),
        baseline_ref: baseline_ref.to_owned(),
        normalization_version: version,
    };
    let ghost p = pair@;
    match found {
        Some(i) => {
            group.pair_bases.set(i, pair);
            assert(pair_views(group.pair_bases@) =~= views.update(i as int, p));
        },
        None => {
            group.pair_bases.push(pair);
            assert(pair_views(group.pair_bases@) =~= views.push(p));
        },
    }
}

// ---------------------------------------------------------------------------
// Putting a copy down
// ---------------------------------------------------------------------------

/// The ids that a copy's links may need.
pub struct LinkIds {
    pub source_member: String,
    pub target_member: String,
    pub baseline: String,
}

#[verifier::ext_equal]
pub struct LinkIdsView {
    pub source_member: Seq<char>,
    pub target_member: Seq<char>,
    pub baseline: Seq<char>,
}

impl LinkIds {
    pub open spec fn view(&self) -> LinkIdsView {
        LinkIdsView {
            source_member: self.source_member@,
            target_member: self.target_member@,
            baseline: self.baseline@,
        }
    }
}

/// The member for one side of a copy.
pub open spec fn new_member(side: OperationMemberView, id: Seq<char>, now: i64) -> MemberView {
    MemberView {
        member_id: id,
        account_id: side.account_id,
        uid: side.uid,
        session_id: side.session_id,
        state: MemberState::Active,
        linked_at: now,
        last_synced_at: None,
    }
}

/// The members with the source among them.
pub open spec fn with_source(
    members: Seq<MemberView>,
    source: OperationMemberView,
    id: Seq<char>,
    now: i64,
) -> Seq<MemberView> {
    match member_from(members, source.uid, source.session_id, 0) {
        Some(_) => members,
        None => with_active(members, new_member(source, id, now)),
    }
}

/// The members with the target among them, counting for its user.
pub open spec fn with_target(
    members: Seq<MemberView>,
    target: OperationMemberView,
    id: Seq<char>,
    now: i64,
) -> Seq<MemberView> {
    match member_from(members, target.uid, target.session_id, 0) {
        Some(i) => activated(members, i),
        None => with_active(members, new_member(target, id, now)),
    }
}

/// The id of the member for one side of a copy.
pub open spec fn id_in(
    members: Seq<MemberView>,
    side: OperationMemberView,
    id: Seq<char>,
) -> Seq<char> {
    match member_from(members, side.uid, side.session_id, 0) {
        Some(i) => members[i].member_id,
        None => id,
    }
}

/// The pairs after one other member was looked at: where it has nothing in common with the
/// target on record, and what it had in common with the source is in the copied lines, the
/// target has that in common with it too.
pub open spec fn inherit_one(
    pairs: Seq<PairView>,
    other: Seq<char>,
    source: Seq<char>,
    target: Seq<char>,
    records: Seq<BaselineView>,
    lines: Seq<Seq<char>>,
) -> Seq<PairView> {
    if other == source || other == target || pair_from(pairs, other, target, 0) is Some {
        pairs
    } else {
        match pair_from(pairs, source, other, 0) {
            Some(i) => if inheritable(records, pairs[i].baseline_ref, lines) {
                with_pair(
                    pairs,
                    other,
                    target,
                    pairs[i].baseline_ref,
                    pairs[i].normalization_version,
                )
            } else {
                pairs
            },
            None => pairs,
        }
    }
}

/// The pairs after the members were looked at one after another.
pub open spec fn inherit(
    pairs: Seq<PairView>,
    members: Seq<MemberView>,
    source: Seq<char>,
    target: Seq<char>,
    records: Seq<BaselineView>,
    lines: Seq<Seq<char>>,
) -> Seq<PairView>
    decreases members.len(),
{
    if members.len() == 0 {
        pairs
    } else {
        inherit_one(
            inherit(pairs, members.drop_last(), source, target, records, lines),
            members.last().member_id,
            source,
            target,
            records,
            lines,
        )
    }
}

/// The group with the copy put down.
pub open spec fn group_committed(
    group: GroupView,
    source: OperationMemberView,
    target: OperationMemberView,
    lines: Seq<Seq<char>>,
    records: Seq<BaselineView>,
    ids: LinkIdsView,
    now: i64,
) -> GroupView {
    let first = with_source(group.members, source, ids.source_member, now);
    let source_id = id_in(group.members, source, ids.source_member);
    let members = with_target(first, target, ids.target_member, now);
    let target_id = id_in(first, target, ids.target_member);
    let pairs = with_pair(
        group.pair_bases,
        source_id,
        target_id,
        ids.baseline,
        NORMALIZATION_VERSION,
    );
    GroupView {
        members,
        pair_bases: inherit(pairs, members, source_id, target_id, records, lines),
        ..group
    }
}

/// The store with the copy put down: in the group with its id, or in a new one.
pub open spec fn committed(
    store: StoreView,
    operation: OperationView,
    variant: WbVariant,
    lines: Seq<Seq<char>>,
    records: Seq<BaselineView>,
    ids: LinkIdsView,
    now: i64,
) -> StoreView {
    let groups = match group_from(store.groups, operation.group_id, 0) {
        Some(i) => store.groups.update(
            i,
            group_committed(
                store.groups[i],
                operation.source,
                operation.target,
                lines,
                records,
                ids,
                now,
            ),
        ),
        None => store.groups.push(
            group_committed(
                GroupView {
                    id: operation.group_id,
                    variant,
                    created_at: now,
                    members: seq![],
                    pair_bases: seq![],
                },
                operation.source,
                operation.target,
                lines,
                records,
                ids,
                now,
            ),
        ),
    };
    StoreView { revision: (store.revision + 1) as u64, groups, ..store }
}

fn member_of(side: &OperationMember, id: &str, now: i64) -> (r: LinkMember)
    ensures
        r@ == new_member(side@, id@, now),
{
    LinkMember {
        member_id: id.to_owned(),
        account_id: side.account_id.clone(),
        uid: side.uid.clone(),
        session_id: side.session_id.clone(),
        state: MemberState::Active,
        linked_at: now,
        last_synced_at: None,
    }
}

fn commit_group(
    group: LinkGroup,
    source: &OperationMember,
    target: &OperationMember,
    lines: &Vec<String>,
    records: &Vec<BaselineRecord>,
    ids: &LinkIds,
    now: i64,
) -> (r: LinkGroup)
    ensures
        r@ == group_committed(
            group@,
            source@,
            target@,
            text::texts(lines@),
            baseline_views(records@),
            ids@,
            now,
        ),
{
    let ghost start = group@;
    let mut group = group;
    let source_id: String = match find_member(
        &group,
        source.uid.as_str(),
        source.session_id.as_str(),
    ) {
        Some(i) => {
            assert(group@.members[i as int] == group.members@[i as int]@);
            group.members[i].member_id.clone()
        },
        None => {
            let member = member_of(source, ids.source_member.as_str(), now);
            add_active_member(&mut group, member);
            ids.source_member.clone()
        },
    };
    let ghost first = group@.members;
    assert(first == with_source(start.members, source@, ids@.source_member, now));
    assert(source_id@ == id_in(start.members, source@, ids@.source_member));
    let target_id: String = match find_member(
        &group,
        target.uid.as_str(),
        target.session_id.as_str(),
    ) {
        Some(i) => {
            assert(group@.members[i as int] == group.members@[i as int]@);
            let id = group.members[i].member_id.clone();
            activate_member(&mut group, i);
            id
        },
        None => {
            let member = member_of(target, ids.target_member.as_str(), now);
            add_active_member(&mut group, member);
            ids.target_member.clone()
        },
    };
    assert(target_id@ == id_in(first, target@, ids@.target_member));
    set_pair_base(
        &mut group,
        source_id.as_str(),
        target_id.as_str(),
        ids.baseline.as_str(),
        NORMALIZATION_VERSION,
    );
    let ghost members = group@.members;
    let ghost pairs = group@.pair_bases;
    let ghost frame = group@;
    let n: usize = group.members.len();
    let mut k: usize = 0;
    assert(members.take(0) =~= seq![]);
    while k < n
        invariant
            k <= n,
            n == group.members@.len(),
            n == members.len(),
            members == group@.members,
            group@ == (GroupView { pair_bases: group@.pair_bases, ..frame }),
            group@.pair_bases == inherit(
                pairs,
                members.take(k as int),
                source_id@,
                target_id@,
                baseline_views(records@),
                text::texts(lines@),
            ),
        decreases n - k,
    {
        assert(members.take(k + 1).drop_last() =~= members.take(k as int));
        assert(members.take(k + 1).last() == group.members@[k as int]@);
        let other = group.members[k].member_id.clone();
        let outside = !text::same_text(other.as_str(), source_id.as_str()) && !text::same_text(
            other.as_str(),
            target_id.as_str(),
        );
        if outside && find_pair_base(&group, other.as_str(), target_id.as_str()).is_none() {
            match find_pair_base(&group, source_id.as_str(), other.as_str()) {
                Some(i) => {
                    assert(group@.pair_bases[i as int] == group.pair_bases@[i as int]@);
                    let baseline_ref = group.pair_bases[i].baseline_ref.clone();
                    let version: u32 = group.pair_bases[i].normalization_version;
                    if inheritable_baseline(records, baseline_ref.as_str(), lines) {
                        set_pair_base(
                            &mut group,
                            other.as_str(),
                            target_id.as_str(),
                            baseline_ref.as_str(),
                            version,
                        );
                    }
                },
                None => {},
            }
        }
        assert(group@.members.len() == group.members@.len());
        k += 1;
    }
    assert(members.take(n as int) =~= members);
    group
}

/// Puts a copy down in the links, given the ids that are new.
pub fn commit_links_with(
    store: LinkStore,
    operation: &Operation,
    variant: WbVariant,
    lines: &Vec<String>,
    records: &Vec<BaselineRecord>,
    ids: &LinkIds,
    now: i64,
) -> (r: LinkStore)
    requires
        store.revision < u64::MAX,
    ensures
        r@ == committed(
            store@,
            operation@,
            variant,
            text::texts(lines@),
            baseline_views(records@),
            ids@,
            now,
        ),
{
    let ghost views = store@.groups;
    let mut store = store;
    let index: usize = match find_group(&store, operation.group_id.as_str()) {
        Some(i) => i,
        None => {
            let n: usize = store.groups.len();
            let group = LinkGroup {
                id: operation.group_id.clone(),
                variant,
                created_at: now,
                members: Vec::new(),
                pair_bases: Vec::new(),
            };
            assert(group@ =~= (GroupView {
                id: operation@.group_id,
                variant,
                created_at: now,
                members: seq![],
                pair_bases: seq![],
            }));
            let ghost g = group@;
            store.groups.push(group);
            assert(group_views(store.groups@) =~= views.push(g));
            n
        },
    };
    let ghost all = group_views(store.groups@);
    let group = store.groups.remove(index);
    assert(all[index as int] == group@);
    let done = commit_group(
        group,
        &operation.source,
        &operation.target,
        lines,
        records,
        ids,
        now,
    );
    let ghost d = done@;
    store.groups.insert(index, done);
    assert(group_views(store.groups@) =~= all.update(index as int, d));
    store.revision = store.revision + 1;
    proof {
        match group_from(views, operation@.group_id, 0) {
            Some(_) => {},
            None => {
                assert(all.update(index as int, d) =~= views.push(d));
            },
        }
    }
    store
}

/// The links of a copy, put down, and the id of the baseline that belongs to them.
pub struct CommittedLinks {
    pub store: LinkStore,
    pub baseline_ref: String,
}

/// Puts a copy down in the links: the two sessions are members of one group, the target counts
/// for its user, and the copied body is what the two have in common.
pub fn commit_links(
    store: LinkStore,
    operation: &Operation,
    variant: WbVariant,
    lines: &Vec<String>,
    records: &Vec<BaselineRecord>,
    now: i64,
) -> (r: CommittedLinks)
    requires
        store.revision < u64::MAX,
    ensures
        exists|ids: LinkIdsView|
            is_uuid(ids.source_member) && is_uuid(ids.target_member) && is_uuid(ids.baseline)
                && r.baseline_ref@ == ids.baseline && r.store@ == #[trigger] committed(
                store@,
                operation@,
                variant,
                text::texts(lines@),
                baseline_views(records@),
                ids,
                now,
            ),
{
    let ids = LinkIds {
        source_member: new_id(),
        target_member: new_id(),
        baseline: new_id(),
    };
    let ghost i = ids@;
    let done = commit_links_with(store, operation, variant, lines, records, &ids, now);
    CommittedLinks { store: done, baseline_ref: ids.baseline }
}

/// What is wrong with the links of a copy that were put down; nothing where both sides are there.
pub open spec fn links_complaint(store: StoreStateView, operation: OperationView) -> Option<
    Seq<char>,
> {
    match store {
        StoreStateView::Ready(s) => match group_from(s.groups, operation.group_id, 0) {
            None => Some("关联组缺失，已停止恢复"@),
            Some(i) => if member_from(
                s.groups[i].members,
                operation.source.uid,
                operation.source.session_id,
                0,
            ) is None || member_from(
                s.groups[i].members,
                operation.target.uid,
                operation.target.session_id,
                0,
            ) is None {
                Some("关联成员缺失，已停止恢复"@)
            } else {
                None
            },
        },
        StoreStateView::Missing => Some("关联存储主文件缺失，已停止恢复"@),
        StoreStateView::Unavailable(reason) => Some(reason),
    }
}

/// Checks that the links of a copy, which were put down, are still there.
pub fn committed_links_present(store: &StoreState, operation: &Operation) -> (r: Result<(), String>)
    ensures
        match r {
            Ok(_) => links_complaint(store@, operation@) is None,
            Err(e) => links_complaint(store@, operation@) == Some(e@),
        },
{
    match store {
        StoreState::Ready(s) => match find_group(s, operation.group_id.as_str()) {
            None => Err("关联组缺失，已停止恢复".to_owned()),
            Some(i) => {
                let group = &s.groups[i];
                assert(s@.groups[i as int] == group@);
                let source = find_member(
                    group,
                    operation.source.uid.as_str(),
                    operation.source.session_id.as_str(),
                );
                let target = find_member(
                    group,
                    operation.target.uid.as_str(),
                    operation.target.session_id.as_str(),
                );
                if source.is_none() || target.is_none() {
                    return Err("关联成员缺失，已停止恢复".to_owned());
                }
                Ok(())
            },
        },
        StoreState::Missing => Err("关联存储主文件缺失，已停止恢复".to_owned()),
        StoreState::Unavailable(reason) => Err(reason.clone()),
    }
}

// ---------------------------------------------------------------------------
// Laws
// ---------------------------------------------------------------------------

/// A record only ever goes forward: its phase is the later of the two, a phase that was passed
/// changes nothing, and with a new one nothing but the time changes.
pub proof fn law_phase_only_goes_forward(operation: OperationView, phase: OpPhase, now: i64)
    ensures
        ({
            let new = phase_advanced(operation, phase, now);
            &&& phase_rank(new.phase) >= phase_rank(operation.phase)
            &&& phase_rank(new.phase) >= phase_rank(phase)
            &&& new.phase == operation.phase || new.phase == phase
            &&& phase_rank(operation.phase) >= phase_rank(phase) ==> new == operation
            &&& phase_rank(operation.phase) < phase_rank(phase) ==> new == OperationView {
                phase,
                updated_at: now,
                ..operation
            }
        }),
{
}

/// At most one session counts for each user.
pub open spec fn one_active_each(members: Seq<MemberView>) -> bool {
    forall|i: int, j: int|
        0 <= i < j < members.len() && (#[trigger] members[i]).state == MemberState::Active && (
        #[trigger] members[j]).state == MemberState::Active ==> members[i].uid != members[j].uid
}

/// In every group at most one session counts for each user.
pub open spec fn store_is_sound(store: StoreView) -> bool {
    forall|g: int| 0 <= g < store.groups.len() ==> one_active_each(
        (#[trigger] store.groups[g]).members,
    )
}

pub proof fn lemma_member_from(members: Seq<MemberView>, uid: Seq<char>, session: Seq<char>, from: int)
    requires
        0 <= from,
    ensures
        member_from(members, uid, session, from) matches Some(i) ==> from <= i < members.len()
            && members[i].uid == uid && members[i].session_id == session,
        member_from(members, uid, session, from) is None ==> forall|j: int|
            from <= j < members.len() ==> !((#[trigger] members[j]).uid == uid
                && members[j].session_id == session),
    decreases members.len() - from,
{
    if from < members.len() && !(members[from].uid == uid && members[from].session_id == session) {
        lemma_member_from(members, uid, session, from + 1);
    }
}

pub proof fn lemma_active_from(members: Seq<MemberView>, uid: Seq<char>, from: int)
    requires
        0 <= from,
    ensures
        active_from(members, uid, from) matches Some(i) ==> from <= i < members.len()
            && members[i].uid == uid && members[i].state == MemberState::Active,
        active_from(members, uid, from) is None ==> forall|j: int|
            from <= j < members.len() ==> !((#[trigger] members[j]).uid == uid && members[j].state
                == MemberState::Active),
    decreases members.len() - from,
{
    if from < members.len() && !(members[from].uid == uid && members[from].state
        == MemberState::Active) {
        lemma_active_from(members, uid, from + 1);
    }
}

pub proof fn lemma_group_from(groups: Seq<GroupView>, id: Seq<char>, from: int)
    requires
        0 <= from,
    ensures
        group_from(groups, id, from) matches Some(i) ==> from <= i < groups.len() && groups[i].id
            == id && forall|j: int| from <= j < i ==> (#[trigger] groups[j]).id != id,
        group_from(groups, id, from) is None ==> forall|j: int|
            from <= j < groups.len() ==> (#[trigger] groups[j]).id != id,
    decreases groups.len() - from,
{
    if from < groups.len() && groups[from].id != id {
        lemma_group_from(groups, id, from + 1);
    }
}

pub proof fn lemma_identity_from(
    groups: Seq<GroupView>,
    variant: WbVariant,
    uid: Seq<char>,
    session: Seq<char>,
    from: int,
)
    requires
        0 <= from,
    ensures
        identity_from(groups, variant, uid, session, from) matches Some(i) ==> from <= i
            < groups.len() && holds_identity(groups[i], variant, uid, session) && forall|j: int|
            from <= j < i ==> !holds_identity(#[trigger] groups[j], variant, uid, session),
        identity_from(groups, variant, uid, session, from) is None ==> forall|j: int|
            from <= j < groups.len() ==> !holds_identity(
                #[trigger] groups[j],
                variant,
                uid,
                session,
            ),
    decreases groups.len() - from,
{
    if from < groups.len() && !holds_identity(groups[from], variant, uid, session) {
        lemma_identity_from(groups, variant, uid, session, from + 1);
    }
}

proof fn lemma_pair_from(pairs: Seq<PairView>, a: Seq<char>, b: Seq<char>, from: int)
    requires
        0 <= from,
    ensures
        pair_from(pairs, a, b, from) matches Some(i) ==> from <= i < pairs.len() && is_pair(
            pairs[i],
            a,
            b,
        ) && forall|j: int| from <= j < i ==> !is_pair(#[trigger] pairs[j], a, b),
        pair_from(pairs, a, b, from) is None ==> forall|j: int|
            from <= j < pairs.len() ==> !is_pair(#[trigger] pairs[j], a, b),
    decreases pairs.len() - from,
{
    if from < pairs.len() && !is_pair(pairs[from], a, b) {
        lemma_pair_from(pairs, a, b, from + 1);
    }
}

/// What the two members have in common, by the pairs.
pub open spec fn common(pairs: Seq<PairView>, a: Seq<char>, b: Seq<char>) -> Option<Seq<char>> {
    match pair_from(pairs, a, b, 0) {
        Some(i) => Some(pairs[i].baseline_ref),
        None => None,
    }
}

/// The two pairs of members are one pair.
pub open spec fn same_two(a: Seq<char>, b: Seq<char>, c: Seq<char>, d: Seq<char>) -> bool {
    (a == c && b == d) || (a == d && b == c)
}

proof fn lemma_with_pair(
    pairs: Seq<PairView>,
    a: Seq<char>,
    b: Seq<char>,
    baseline_ref: Seq<char>,
    version: u32,
    c: Seq<char>,
    d: Seq<char>,
)
    ensures
        common(with_pair(pairs, a, b, baseline_ref, version), a, b) == Some(baseline_ref),
        !same_two(a, b, c, d) ==> common(with_pair(pairs, a, b, baseline_ref, version), c, d)
            == common(pairs, c, d),
{
    let all = with_pair(pairs, a, b, baseline_ref, version);
    lemma_pair_from(pairs, a, b, 0);
    lemma_pair_from(all, a, b, 0);
    lemma_pair_from(pairs, c, d, 0);
    lemma_pair_from(all, c, d, 0);
    let k = match pair_from(pairs, a, b, 0) {
        Some(i) => i,
        None => pairs.len() as int,
    };
    assert(is_pair(all[k], a, b));
    match pair_from(all, a, b, 0) {
        Some(i) => {
            if i < k {
                assert(all[i] == pairs[i]);
            }
        },
        None => {},
    }
    if !same_two(a, b, c, d) {
        assert(!is_pair(all[k], c, d));
        match pair_from(pairs, c, d, 0) {
            Some(i) => {
                assert(i != k) by {
                    if i == k {
                        assert(is_pair(pairs[k], a, b));
                        assert(is_pair(pairs[k], c, d));
                    }
                }
                assert(all[i] == pairs[i]);
                match pair_from(all, c, d, 0) {
                    Some(j) => {
                        if j < i && j != k {
                            assert(all[j] == pairs[j]);
                        }
                        if i < j {
                            assert(is_pair(all[i], c, d));
                        }
                    },
                    None => {
                        assert(is_pair(all[i], c, d));
                    },
                }
            },
            None => {
                match pair_from(all, c, d, 0) {
                    Some(j) => {
                        if j != k {
                            assert(all[j] == pairs[j]);
                        }
                    },
                    None => {},
                }
            },
        }
    }
}

proof fn lemma_inherit_keeps(
    pairs: Seq<PairView>,
    members: Seq<MemberView>,
    source: Seq<char>,
    target: Seq<char>,
    records: Seq<BaselineView>,
    lines: Seq<Seq<char>>,
    c: Seq<char>,
    d: Seq<char>,
)
    requires
        common(pairs, c, d) is Some,
    ensures
        common(inherit(pairs, members, source, target, records, lines), c, d) == common(
            pairs,
            c,
            d,
        ),
    decreases members.len(),
{
    if members.len() > 0 {
        lemma_inherit_keeps(pairs, members.drop_last(), source, target, records, lines, c, d);
        let before = inherit(pairs, members.drop_last(), source, target, records, lines);
        let other = members.last().member_id;
        if !(other == source || other == target || pair_from(before, other, target, 0) is Some) {
            match pair_from(before, source, other, 0) {
                Some(i) => {
                    if inheritable(records, before[i].baseline_ref, lines) {
                        if same_two(other, target, c, d) {
                            lemma_pair_swap(before, c, d);
                        }
                        lemma_with_pair(
                            before,
                            other,
                            target,
                            before[i].baseline_ref,
                            before[i].normalization_version,
                            c,
                            d,
                        );
                    }
                },
                None => {},
            }
        }
    }
}

proof fn lemma_pair_swap(pairs: Seq<PairView>, a: Seq<char>, b: Seq<char>)
    ensures
        pair_from(pairs, a, b, 0) == pair_from(pairs, b, a, 0),
{
    lemma_pair_from(pairs, a, b, 0);
    lemma_pair_from(pairs, b, a, 0);
    match (pair_from(pairs, a, b, 0), pair_from(pairs, b, a, 0)) {
        (Some(i), Some(j)) => {
            if i < j {
                assert(!is_pair(pairs[i], b, a));
            }
            if j < i {
                assert(!is_pair(pairs[j], a, b));
            }
        },
        (Some(i), None) => {
            assert(!is_pair(pairs[i], b, a));
        },
        (None, Some(j)) => {
            assert(!is_pair(pairs[j], a, b));
        },
        _ => {},
    }
}

proof fn lemma_superseded_sound(members: Seq<MemberView>, uid: Seq<char>)
    requires
        one_active_each(members),
    ensures
        one_active_each(superseded(members, uid)),
        forall|i: int|
            0 <= i < members.len() && (#[trigger] superseded(members, uid)[i]).state
                == MemberState::Active ==> superseded(members, uid)[i].uid != uid,
{
    let s = superseded(members, uid);
    assert forall|i: int, j: int|
        0 <= i < j < s.len() && (#[trigger] s[i]).state == MemberState::Active && (
        #[trigger] s[j]).state == MemberState::Active implies s[i].uid != s[j].uid by {
        assert(members[i].state == MemberState::Active);
        assert(members[j].state == MemberState::Active);
    }
}

proof fn lemma_with_active_sound(members: Seq<MemberView>, m: MemberView)
    requires
        one_active_each(members),
    ensures
        one_active_each(with_active(members, m)),
{
    lemma_superseded_sound(members, m.uid);
    let s = superseded(members, m.uid);
    let all = with_active(members, m);
    assert forall|i: int, j: int|
        0 <= i < j < all.len() && (#[trigger] all[i]).state == MemberState::Active && (
        #[trigger] all[j]).state == MemberState::Active implies all[i].uid != all[j].uid by {
        assert(all[i] == s[i]);
        if j < s.len() {
            assert(all[j] == s[j]);
        }
    }
}

proof fn lemma_activated_sound(members: Seq<MemberView>, k: int)
    requires
        one_active_each(members),
        0 <= k < members.len(),
    ensures
        one_active_each(activated(members, k)),
{
    let uid = members[k].uid;
    lemma_superseded_sound(members, uid);
    let s = superseded(members, uid);
    let all = activated(members, k);
    assert forall|i: int, j: int|
        0 <= i < j < all.len() && (#[trigger] all[i]).state == MemberState::Active && (
        #[trigger] all[j]).state == MemberState::Active implies all[i].uid != all[j].uid by {
        if i != k {
            assert(all[i] == s[i]);
        }
        if j != k {
            assert(all[j] == s[j]);
        }
    }
}

proof fn lemma_group_sound(
    group: GroupView,
    source: OperationMemberView,
    target: OperationMemberView,
    lines: Seq<Seq<char>>,
    records: Seq<BaselineView>,
    ids: LinkIdsView,
    now: i64,
)
    requires
        one_active_each(group.members),
    ensures
        one_active_each(
            group_committed(group, source, target, lines, records, ids, now).members,
        ),
{
    let first = with_source(group.members, source, ids.source_member, now);
    lemma_with_active_sound(group.members, new_member(source, ids.source_member, now));
    lemma_member_from(first, target.uid, target.session_id, 0);
    match member_from(first, target.uid, target.session_id, 0) {
        Some(i) => {
            lemma_activated_sound(first, i);
        },
        None => {
            lemma_with_active_sound(first, new_member(target, ids.target_member, now));
        },
    }
}

/// To put a copy down keeps it that in every group at most one session counts for each user.
pub proof fn law_commit_keeps_one_active_member_each(
    store: StoreView,
    operation: OperationView,
    variant: WbVariant,
    lines: Seq<Seq<char>>,
    records: Seq<BaselineView>,
    ids: LinkIdsView,
    now: i64,
)
    requires
        store_is_sound(store),
    ensures
        store_is_sound(committed(store, operation, variant, lines, records, ids, now)),
{
    let all = committed(store, operation, variant, lines, records, ids, now);
    lemma_group_from(store.groups, operation.group_id, 0);
    match group_from(store.groups, operation.group_id, 0) {
        Some(i) => {
            assert(one_active_each(store.groups[i].members));
            lemma_group_sound(
                store.groups[i],
                operation.source,
                operation.target,
                lines,
                records,
                ids,
                now,
            );
        },
        None => {
            let fresh = GroupView {
                id: operation.group_id,
                variant,
                created_at: now,
                members: seq![],
                pair_bases: seq![],
            };
            lemma_group_sound(
                fresh,
                operation.source,
                operation.target,
                lines,
                records,
                ids,
                now,
            );
        },
    }
    assert forall|g: int| 0 <= g < all.groups.len() implies one_active_each(
        (#[trigger] all.groups[g]).members,
    ) by {
        if g < store.groups.len() {
            assert(one_active_each(store.groups[g].members));
        }
    }
}

/// No member is lost when a copy is put down: each stays, at its place, as the same session of
/// the same user.
pub proof fn law_commit_keeps_every_member(
    group: GroupView,
    source: OperationMemberView,
    target: OperationMemberView,
    lines: Seq<Seq<char>>,
    records: Seq<BaselineView>,
    ids: LinkIdsView,
    now: i64,
    i: int,
)
    requires
        0 <= i < group.members.len(),
    ensures
        ({
            let done = group_committed(group, source, target, lines, records, ids, now);
            &&& i < done.members.len()
            &&& done.members[i].member_id == group.members[i].member_id
            &&& done.members[i].uid == group.members[i].uid
            &&& done.members[i].session_id == group.members[i].session_id
        }),
{
    let first = with_source(group.members, source, ids.source_member, now);
    lemma_member_from(first, target.uid, target.session_id, 0);
}

/// What two other members had in common stays on record when a copy is put down, and what the
/// source and the target have in common is the copied body.
pub proof fn law_commit_keeps_other_baselines(
    group: GroupView,
    source: OperationMemberView,
    target: OperationMemberView,
    lines: Seq<Seq<char>>,
    records: Seq<BaselineView>,
    ids: LinkIdsView,
    now: i64,
    c: Seq<char>,
    d: Seq<char>,
)
    ensures
        ({
            let done = group_committed(group, source, target, lines, records, ids, now);
            let source_id = id_in(group.members, source, ids.source_member);
            let first = with_source(group.members, source, ids.source_member, now);
            let target_id = id_in(first, target, ids.target_member);
            &&& common(done.pair_bases, source_id, target_id) == Some(ids.baseline)
            &&& common(group.pair_bases, c, d) is Some && !same_two(source_id, target_id, c, d)
                ==> common(done.pair_bases, c, d) == common(group.pair_bases, c, d)
        }),
{
    let source_id = id_in(group.members, source, ids.source_member);
    let first = with_source(group.members, source, ids.source_member, now);
    let target_id = id_in(first, target, ids.target_member);
    let members = with_target(first, target, ids.target_member, now);
    let pairs = with_pair(
        group.pair_bases,
        source_id,
        target_id,
        ids.baseline,
        NORMALIZATION_VERSION,
    );
    lemma_with_pair(
        group.pair_bases,
        source_id,
        target_id,
        ids.baseline,
        NORMALIZATION_VERSION,
        c,
        d,
    );
    lemma_inherit_keeps(
        pairs,
        members,
        source_id,
        target_id,
        records,
        lines,
        source_id,
        target_id,
    );
    if common(pairs, c, d) is Some {
        lemma_inherit_keeps(pairs, members, source_id, target_id, records, lines, c, d);
    }
}

/// The session that counts for the user in the group that holds a session of another; `None`
/// where there is no such group, or none in it counts for the user.
pub open spec fn counterpart(
    store: StoreView,
    variant: WbVariant,
    uid: Seq<char>,
    session_id: Seq<char>,
    other_uid: Seq<char>,
) -> Option<Seq<char>> {
    match identity_from(store.groups, variant, uid, session_id, 0) {
        Some(g) => match active_from(store.groups[g].members, other_uid, 0) {
            Some(i) => Some(store.groups[g].members[i].session_id),
            None => None,
        },
        None => None,
    }
}

/// Where the links hold the session of the user, it is looked up in the group with the id.
pub open spec fn looked_up_in(
    store: StoreView,
    variant: WbVariant,
    uid: Seq<char>,
    session_id: Seq<char>,
    group_id: Seq<char>,
) -> bool {
    identity_from(store.groups, variant, uid, session_id, 0) matches Some(g) ==> group_from(
        store.groups,
        group_id,
        0,
    ) == Some(g)
}

proof fn lemma_group_after(
    group: GroupView,
    source: OperationMemberView,
    target: OperationMemberView,
    lines: Seq<Seq<char>>,
    records: Seq<BaselineView>,
    ids: LinkIdsView,
    now: i64,
)
    requires
        source.uid != target.uid,
    ensures
        ({
            let members = group_committed(
                group,
                source,
                target,
                lines,
                records,
                ids,
                now,
            ).members;
            let first = with_source(group.members, source, ids.source_member, now);
            &&& member_from(members, source.uid, source.session_id, 0) is Some
            &&& member_from(members, target.uid, target.session_id, 0) is Some
            &&& active_from(members, target.uid, 0) matches Some(i) && 0 <= i < members.len()
                && members[i].session_id == target.session_id
            &&& forall|k: int|
                0 <= k < first.len() && (#[trigger] first[k]).uid == source.uid ==> members[k]
                    == first[k]
            &&& forall|k: int|
                0 <= k < first.len() ==> (#[trigger] members[k]).uid == first[k].uid
            &&& first.len() <= members.len() <= first.len() + 1
            &&& members.len() > first.len() ==> members[first.len() as int].uid == target.uid
        }),
{
    let first = with_source(group.members, source, ids.source_member, now);
    let members = group_committed(group, source, target, lines, records, ids, now).members;
    lemma_member_from(group.members, source.uid, source.session_id, 0);
    lemma_member_from(first, target.uid, target.session_id, 0);
    lemma_member_from(members, source.uid, source.session_id, 0);
    lemma_member_from(members, target.uid, target.session_id, 0);
    lemma_active_from(members, target.uid, 0);
    let k = match member_from(group.members, source.uid, source.session_id, 0) {
        Some(i) => i,
        None => group.members.len() as int,
    };
    assert(first[k].uid == source.uid && first[k].session_id == source.session_id);
    assert(members[k].uid == source.uid && members[k].session_id == source.session_id);
    let t = match member_from(first, target.uid, target.session_id, 0) {
        Some(i) => i,
        None => first.len() as int,
    };
    assert(members[t].uid == target.uid && members[t].session_id == target.session_id
        && members[t].state == MemberState::Active);
    match active_from(members, target.uid, 0) {
        Some(i) => {
            if i != t {
                assert(members[i] == stepped_down(first[i], target.uid));
            }
        },
        None => {},
    }
}

/// What becomes of the members when a copy is put down: each stays the same session of the same
/// user, those of other users stay as they are, and what is new is the source or the target.
pub proof fn lemma_members_after(
    group: GroupView,
    source: OperationMemberView,
    target: OperationMemberView,
    lines: Seq<Seq<char>>,
    records: Seq<BaselineView>,
    ids: LinkIdsView,
    now: i64,
)
    ensures
        ({
            let before = group.members;
            let after = group_committed(group, source, target, lines, records, ids, now).members;
            let known = member_from(before, source.uid, source.session_id, 0) is Some;
            &&& before.len() <= after.len()
            &&& forall|j: int|
                0 <= j < before.len() ==> (#[trigger] after[j]).uid == before[j].uid
                    && after[j].session_id == before[j].session_id
            &&& forall|j: int|
                before.len() <= j < after.len() ==> ((#[trigger] after[j]).uid == target.uid
                    && after[j].session_id == target.session_id) || (!known && after[j].uid
                    == source.uid && after[j].session_id == source.session_id)
            &&& forall|j: int|
                0 <= j < before.len() && before[j].uid != target.uid && (known || before[j].uid
                    != source.uid) ==> #[trigger] after[j] == before[j]
        }),
{
    let first = with_source(group.members, source, ids.source_member, now);
    lemma_member_from(first, target.uid, target.session_id, 0);
}

/// A copy that was put down is found again: asked for the copy of the source for the target's
/// user, the links give the target, so that no second copy is made.
pub proof fn law_copy_is_found_again(
    store: StoreView,
    operation: OperationView,
    variant: WbVariant,
    lines: Seq<Seq<char>>,
    records: Seq<BaselineView>,
    ids: LinkIdsView,
    now: i64,
)
    requires
        operation.source.uid != operation.target.uid,
        group_from(store.groups, operation.group_id, 0) matches Some(g)
            ==> store.groups[g].variant == variant,
        looked_up_in(
            store,
            variant,
            operation.source.uid,
            operation.source.session_id,
            operation.group_id,
        ),
    ensures
        counterpart(
            committed(store, operation, variant, lines, records, ids, now),
            variant,
            operation.source.uid,
            operation.source.session_id,
            operation.target.uid,
        ) == Some(operation.target.session_id),
{
    let all = committed(store, operation, variant, lines, records, ids, now);
    let source = operation.source;
    lemma_group_from(store.groups, operation.group_id, 0);
    let g = match group_from(store.groups, operation.group_id, 0) {
        Some(i) => i,
        None => store.groups.len() as int,
    };
    let before = match group_from(store.groups, operation.group_id, 0) {
        Some(i) => store.groups[i],
        None => GroupView {
            id: operation.group_id,
            variant,
            created_at: now,
            members: seq![],
            pair_bases: seq![],
        },
    };
    lemma_group_after(before, source, operation.target, lines, records, ids, now);
    assert(holds_identity(all.groups[g], variant, source.uid, source.session_id));
    lemma_identity_from(all.groups, variant, source.uid, source.session_id, 0);
    match identity_from(all.groups, variant, source.uid, source.session_id, 0) {
        Some(i) => {
            if i != g {
                assert(all.groups[i] == store.groups[i]);
                lemma_identity_from(store.groups, variant, source.uid, source.session_id, 0);
                assert(!holds_identity(all.groups[g], variant, source.uid, source.session_id));
            }
        },
        None => {},
    }
}

/// The way back leads to where the copy came from: asked for the copy of the target for the
/// source's user, the links give the source, where it counts for that user.
pub proof fn law_way_back_leads_to_the_source(
    store: StoreView,
    operation: OperationView,
    variant: WbVariant,
    lines: Seq<Seq<char>>,
    records: Seq<BaselineView>,
    ids: LinkIdsView,
    now: i64,
)
    requires
        operation.source.uid != operation.target.uid,
        group_from(store.groups, operation.group_id, 0) matches Some(g) ==> {
            &&& store.groups[g].variant == variant
            &&& member_from(
                store.groups[g].members,
                operation.source.uid,
                operation.source.session_id,
                0,
            ) matches Some(i) ==> active_from(
                store.groups[g].members,
                operation.source.uid,
                0,
            ) == Some(i)
        },
        looked_up_in(
            store,
            variant,
            operation.target.uid,
            operation.target.session_id,
            operation.group_id,
        ),
    ensures
        counterpart(
            committed(store, operation, variant, lines, records, ids, now),
            variant,
            operation.target.uid,
            operation.target.session_id,
            operation.source.uid,
        ) == Some(operation.source.session_id),
{
    let all = committed(store, operation, variant, lines, records, ids, now);
    let source = operation.source;
    let target = operation.target;
    lemma_group_from(store.groups, operation.group_id, 0);
    let g = match group_from(store.groups, operation.group_id, 0) {
        Some(i) => i,
        None => store.groups.len() as int,
    };
    let before = match group_from(store.groups, operation.group_id, 0) {
        Some(i) => store.groups[i],
        None => GroupView {
            id: operation.group_id,
            variant,
            created_at: now,
            members: seq![],
            pair_bases: seq![],
        },
    };
    lemma_group_after(before, source, target, lines, records, ids, now);
    assert(holds_identity(all.groups[g], variant, target.uid, target.session_id));
    lemma_identity_from(all.groups, variant, target.uid, target.session_id, 0);
    match identity_from(all.groups, variant, target.uid, target.session_id, 0) {
        Some(i) => {
            if i != g {
                assert(all.groups[i] == store.groups[i]);
                lemma_identity_from(store.groups, variant, target.uid, target.session_id, 0);
                assert(!holds_identity(all.groups[g], variant, target.uid, target.session_id));
            }
        },
        None => {},
    }
    let first = with_source(before.members, source, ids.source_member, now);
    let members = all.groups[g].members;
    lemma_member_from(before.members, source.uid, source.session_id, 0);
    lemma_active_from(before.members, source.uid, 0);
    lemma_active_from(first, source.uid, 0);
    lemma_active_from(members, source.uid, 0);
    let k = match member_from(before.members, source.uid, source.session_id, 0) {
        Some(i) => i,
        None => before.members.len() as int,
    };
    assert(first[k].uid == source.uid && first[k].state == MemberState::Active
        && first[k].session_id == source.session_id);
    assert(members[k] == first[k]);
    match active_from(members, source.uid, 0) {
        Some(i) => {
            if i < first.len() {
                assert(first[i].uid == source.uid) by {
                    if first[i].uid != source.uid {
                        assert(members[i].uid == first[i].uid);
                    }
                }
                assert(members[i] == first[i]);
                match member_from(before.members, source.uid, source.session_id, 0) {
                    Some(m) => {
                        lemma_first_active(members, before.members, source.uid, i, m);
                    },
                    None => {
                        if i != k {
                            assert(first[i] == stepped_down(before.members[i], source.uid));
                        }
                    },
                }
            }
        },
        None => {},
    }
}

proof fn lemma_active_first(members: Seq<MemberView>, uid: Seq<char>, from: int, j: int)
    requires
        0 <= from <= j < members.len(),
        members[j].uid == uid,
        members[j].state == MemberState::Active,
    ensures
        active_from(members, uid, from) matches Some(i) && i <= j,
    decreases members.len() - from,
{
    if !(members[from].uid == uid && members[from].state == MemberState::Active) {
        lemma_active_first(members, uid, from + 1, j);
    }
}

/// The first session that counts for a user is at the same place in two lists in which the
/// user's sessions are the same.
proof fn lemma_first_active(
    after: Seq<MemberView>,
    before: Seq<MemberView>,
    uid: Seq<char>,
    i: int,
    m: int,
)
    requires
        active_from(after, uid, 0) == Some(i),
        active_from(before, uid, 0) == Some(m),
        before.len() <= after.len(),
        0 <= i < before.len(),
        forall|k: int| 0 <= k < before.len() && (#[trigger] before[k]).uid == uid ==> after[k]
            == before[k],
        after[i] == before[i],
    ensures
        i == m,
{
    lemma_active_from(after, uid, 0);
    lemma_active_from(before, uid, 0);
    lemma_active_first(before, uid, 0, i);
    assert(after[m] == before[m]);
    lemma_active_first(after, uid, 0, m);
}

/// The copies of an edition that still have something to do are those that are neither completed
/// nor abandoned; each is taken as it is and in its place.
pub proof fn law_every_open_copy_is_pending(
    a: Seq<OperationView>,
    b: Seq<OperationView>,
    operation: OperationView,
    variant: WbVariant,
)
    ensures
        pending(a + b, variant) == pending(a, variant) + pending(b, variant),
        pending(seq![operation], variant) == if operation.variant == variant && operation.phase
            != OpPhase::Completed && operation.phase != OpPhase::Abandoned {
            seq![operation]
        } else {
            seq![]
        },
    decreases b.len(),
{
    assert(seq![operation].drop_last() =~= Seq::<OperationView>::empty());
    reveal_with_fuel(pending, 2);
    assert(Seq::<OperationView>::empty().push(operation) =~= seq![operation]);
    if b.len() == 0 {
        assert(a + b =~= a);
        assert(pending(a, variant) + pending(b, variant) =~= pending(a, variant));
    } else {
        assert((a + b).drop_last() =~= a + b.drop_last());
        law_every_open_copy_is_pending(a, b.drop_last(), operation, variant);
        if is_pending(b.last(), variant) {
            assert(pending(a, variant) + pending(b, variant) =~= (pending(a, variant) + pending(
                b.drop_last(),
                variant,
            )).push(b.last()));
        }
    }
}

/// The record of a request is the first whose source user, session and target user are those that
/// are asked for; there is none where no record has all three.
pub proof fn law_record_is_found_by_its_request(
    operations: Seq<OperationView>,
    source_uid: Seq<char>,
    session_id: Seq<char>,
    target_uid: Seq<char>,
    from: int,
)
    requires
        0 <= from,
    ensures
        match request_from(operations, source_uid, session_id, target_uid, from) {
            Some(i) => {
                &&& from <= i < operations.len()
                &&& operations[i].source.uid == source_uid
                &&& operations[i].source.session_id == session_id
                &&& operations[i].target.uid == target_uid
                &&& forall|j: int|
                    from <= j < i ==> !((#[trigger] operations[j]).source.uid == source_uid
                        && operations[j].source.session_id == session_id && operations[j].target.uid
                        == target_uid)
            },
            None => forall|j: int|
                from <= j < operations.len() ==> !((#[trigger] operations[j]).source.uid
                    == source_uid && operations[j].source.session_id == session_id
                    && operations[j].target.uid == target_uid),
        },
    decreases operations.len() - from,
{
    if from < operations.len() && !is_of_request(
        operations[from],
        source_uid,
        session_id,
        target_uid,
    ) {
        law_record_is_found_by_its_request(
            operations,
            source_uid,
            session_id,
            target_uid,
            from + 1,
        );
    }
}

/// A session is found in the first group of its edition that holds it for its user; in none where
/// no group of the edition does.
pub proof fn law_session_is_found_in_its_edition(
    groups: Seq<GroupView>,
    variant: WbVariant,
    uid: Seq<char>,
    session_id: Seq<char>,
    from: int,
)
    requires
        0 <= from,
    ensures
        match identity_from(groups, variant, uid, session_id, from) {
            Some(g) => {
                &&& from <= g < groups.len()
                &&& groups[g].variant == variant
                &&& exists|i: int|
                    0 <= i < groups[g].members.len() && (#[trigger] groups[g].members[i]).uid == uid
                        && groups[g].members[i].session_id == session_id
                &&& forall|h: int, i: int|
                    from <= h < g && groups[h].variant == variant && 0 <= i
                        < groups[h].members.len() ==> !((#[trigger] groups[h].members[i]).uid == uid
                        && groups[h].members[i].session_id == session_id)
            },
            None => forall|h: int, i: int|
                from <= h < groups.len() && groups[h].variant == variant && 0 <= i
                    < groups[h].members.len() ==> !((#[trigger] groups[h].members[i]).uid == uid
                    && groups[h].members[i].session_id == session_id),
        },
    decreases groups.len() - from,
{
    if from < groups.len() {
        lemma_member_from(groups[from].members, uid, session_id, 0);
        if holds_identity(groups[from], variant, uid, session_id) {
            let i = member_from(groups[from].members, uid, session_id, 0)->0;
            assert(groups[from].members[i].uid == uid);
        } else {
            law_session_is_found_in_its_edition(groups, variant, uid, session_id, from + 1);
        }
    }
}

proof fn lemma_first_member(
    members: Seq<MemberView>,
    uid: Seq<char>,
    session: Seq<char>,
    from: int,
    i: int,
)
    requires
        0 <= from <= i < members.len(),
        members[i].uid == uid,
        members[i].session_id == session,
        forall|j: int|
            from <= j < i ==> !((#[trigger] members[j]).uid == uid && members[j].session_id
                == session),
    ensures
        member_from(members, uid, session, from) == Some(i),
    decreases i - from,
{
    if from < i {
        lemma_first_member(members, uid, session, from + 1, i);
    }
}

/// The group's members hold the session of the user.
pub open spec fn has_member(members: Seq<MemberView>, uid: Seq<char>, session: Seq<char>) -> bool {
    exists|i: int|
        0 <= i < members.len() && (#[trigger] members[i]).uid == uid && members[i].session_id
            == session
}

/// To put a copy down adds each side that is not in the group yet, as the session that counts for
/// its user from now on, with the account, the user and the session on record.
pub proof fn law_commit_adds_what_is_missing(
    group: GroupView,
    source: OperationMemberView,
    target: OperationMemberView,
    lines: Seq<Seq<char>>,
    records: Seq<BaselineView>,
    ids: LinkIdsView,
    now: i64,
)
    requires
        source.uid != target.uid,
    ensures
        ({
            let done = group_committed(group, source, target, lines, records, ids, now);
            let n = group.members.len() as int;
            let had_source = has_member(group.members, source.uid, source.session_id);
            let had_target = has_member(group.members, target.uid, target.session_id);
            &&& done.id == group.id
            &&& done.variant == group.variant
            &&& done.created_at == group.created_at
            &&& done.members.len() == n + (if had_source {
                0int
            } else {
                1int
            }) + (if had_target {
                0int
            } else {
                1int
            })
            &&& !had_source ==> done.members[n] == (MemberView {
                member_id: ids.source_member,
                account_id: source.account_id,
                uid: source.uid,
                session_id: source.session_id,
                state: MemberState::Active,
                linked_at: now,
                last_synced_at: None,
            })
            &&& !had_target ==> done.members.last() == (MemberView {
                member_id: ids.target_member,
                account_id: target.account_id,
                uid: target.uid,
                session_id: target.session_id,
                state: MemberState::Active,
                linked_at: now,
                last_synced_at: None,
            })
        }),
{
    let first = with_source(group.members, source, ids.source_member, now);
    lemma_member_from(group.members, source.uid, source.session_id, 0);
    lemma_member_from(group.members, target.uid, target.session_id, 0);
    lemma_member_from(first, target.uid, target.session_id, 0);
    let n = group.members.len() as int;
    assert forall|i: int| 0 <= i < n implies (#[trigger] first[i]).uid == group.members[i].uid
        && first[i].session_id == group.members[i].session_id by {}
    match member_from(group.members, target.uid, target.session_id, 0) {
        Some(i) => {
            assert(first[i].uid == target.uid);
        },
        None => {},
    }
    match member_from(first, target.uid, target.session_id, 0) {
        Some(i) => {
            assert(i < n);
            assert(group.members[i].uid == target.uid);
        },
        None => {},
    }
}

/// To put a copy down makes the target count for its user in place of the user's other sessions.
/// A new source likewise counts in place of its user's others. Nothing else of a member changes,
/// and nothing of the members of other users.
pub proof fn law_commit_changes_only_who_counts(
    group: GroupView,
    source: OperationMemberView,
    target: OperationMemberView,
    lines: Seq<Seq<char>>,
    records: Seq<BaselineView>,
    ids: LinkIdsView,
    now: i64,
    i: int,
)
    requires
        source.uid != target.uid,
        0 <= i < group.members.len(),
    ensures
        ({
            let done = group_committed(group, source, target, lines, records, ids, now);
            let before = group.members[i];
            let after = done.members[i];
            &&& after == (MemberView { state: after.state, ..before })
            &&& before.uid != source.uid && before.uid != target.uid ==> after == before
            &&& before.uid == source.uid && has_member(
                group.members,
                source.uid,
                source.session_id,
            ) ==> after == before
            &&& before.uid == source.uid && !has_member(
                group.members,
                source.uid,
                source.session_id,
            ) ==> after.state == MemberState::Superseded
            &&& before.uid == target.uid && before.session_id != target.session_id ==> after.state
                == MemberState::Superseded
            &&& before.uid == target.uid && before.session_id == target.session_id && (forall|
                j: int,
            |
                0 <= j < i ==> !((#[trigger] group.members[j]).uid == target.uid
                    && group.members[j].session_id == target.session_id)) ==> after.state
                == MemberState::Active
        }),
{
    let first = with_source(group.members, source, ids.source_member, now);
    lemma_member_from(group.members, source.uid, source.session_id, 0);
    lemma_member_from(first, target.uid, target.session_id, 0);
    let n = group.members.len() as int;
    assert forall|j: int| 0 <= j < n implies (#[trigger] first[j]).uid == group.members[j].uid
        && first[j].session_id == group.members[j].session_id by {}
    let before = group.members[i];
    if before.uid == target.uid && before.session_id == target.session_id && (forall|j: int|
        0 <= j < i ==> !((#[trigger] group.members[j]).uid == target.uid
            && group.members[j].session_id == target.session_id)) {
        assert forall|j: int| 0 <= j < i implies !((#[trigger] first[j]).uid == target.uid
            && first[j].session_id == target.session_id) by {
            assert(!(group.members[j].uid == target.uid && group.members[j].session_id
                == target.session_id));
        }
        lemma_first_member(first, target.uid, target.session_id, 0, i);
    }
    if before.uid == target.uid && before.session_id != target.session_id {
        match member_from(first, target.uid, target.session_id, 0) {
            Some(k) => {
                assert(k != i);
            },
            None => {},
        }
    }
}

/// A copy is put down in the group with its id, or in a new group of the edition, made now; the
/// other groups stay as they are, and the store counts one more writing.
pub proof fn law_commit_leaves_other_groups(
    store: StoreView,
    operation: OperationView,
    variant: WbVariant,
    lines: Seq<Seq<char>>,
    records: Seq<BaselineView>,
    ids: LinkIdsView,
    now: i64,
    g: int,
)
    requires
        0 <= g < store.groups.len(),
        store.revision < u64::MAX,
    ensures
        ({
            let done = committed(store, operation, variant, lines, records, ids, now);
            &&& done.version == store.version
            &&& done.revision == store.revision + 1
            &&& store.groups[g].id != operation.group_id ==> done.groups[g] == store.groups[g]
            &&& done.groups[g].id == store.groups[g].id
            &&& done.groups[g].variant == store.groups[g].variant
            &&& done.groups[g].created_at == store.groups[g].created_at
            &&& (forall|h: int|
                0 <= h < store.groups.len() ==> (#[trigger] store.groups[h]).id
                    != operation.group_id) ==> {
                &&& done.groups.len() == store.groups.len() + 1
                &&& done.groups.last().id == operation.group_id
                &&& done.groups.last().variant == variant
                &&& done.groups.last().created_at == now
            }
            &&& (exists|h: int|
                0 <= h < store.groups.len() && (#[trigger] store.groups[h]).id
                    == operation.group_id) ==> done.groups.len() == store.groups.len()
        }),
{
    lemma_group_from(store.groups, operation.group_id, 0);
}

/// What another member had in common with the source, the target has in common with it after the
/// copy, where that is among the copied lines and nothing of the two was on record; and what the
/// target had in common with it stays. Nothing else is made up.
pub proof fn law_target_inherits_what_was_copied(
    group: GroupView,
    source: OperationMemberView,
    target: OperationMemberView,
    lines: Seq<Seq<char>>,
    records: Seq<BaselineView>,
    ids: LinkIdsView,
    now: i64,
    k: int,
)
    ensures
        ({
            let done = group_committed(group, source, target, lines, records, ids, now);
            let source_id = id_in(group.members, source, ids.source_member);
            let first = with_source(group.members, source, ids.source_member, now);
            let target_id = id_in(first, target, ids.target_member);
            let other = done.members[k].member_id;
            0 <= k < done.members.len() && other != source_id && other != target_id && source_id
                != target_id ==> common(done.pair_bases, other, target_id) == match common(
                group.pair_bases,
                other,
                target_id,
            ) {
                Some(held) => Some(held),
                None => match common(group.pair_bases, source_id, other) {
                    Some(held) => if exists|i: int|
                        0 <= i < records.len() && (#[trigger] records[i]).baseline_ref == held
                            && records[i].line_digests.is_prefix_of(lines) {
                        Some(held)
                    } else {
                        None
                    },
                    None => None,
                },
            }
        }),
        ({
            let done = group_committed(group, source, target, lines, records, ids, now);
            let source_id = id_in(group.members, source, ids.source_member);
            let first = with_source(group.members, source, ids.source_member, now);
            let target_id = id_in(first, target, ids.target_member);
            done.pair_bases.contains(
                PairView {
                    left: source_id,
                    right: target_id,
                    baseline_ref: ids.baseline,
                    normalization_version: 1,
                },
            )
        }),
{
    let done = group_committed(group, source, target, lines, records, ids, now);
    let source_id = id_in(group.members, source, ids.source_member);
    let first = with_source(group.members, source, ids.source_member, now);
    let target_id = id_in(first, target, ids.target_member);
    let pairs = with_pair(
        group.pair_bases,
        source_id,
        target_id,
        ids.baseline,
        NORMALIZATION_VERSION,
    );
    lemma_inherit_adds(pairs, done.members, source_id, target_id, records, lines);
    lemma_pair_from(group.pair_bases, source_id, target_id, 0);
    let own = PairView {
        left: source_id,
        right: target_id,
        baseline_ref: ids.baseline,
        normalization_version: 1,
    };
    let p = match pair_from(group.pair_bases, source_id, target_id, 0) {
        Some(i) => i,
        None => group.pair_bases.len() as int,
    };
    assert(pairs[p] == own);
    assert(done.pair_bases[p] == own);
    if 0 <= k < done.members.len() {
        let other = done.members[k].member_id;
        if other != source_id && other != target_id && source_id != target_id {
            lemma_inherits(pairs, done.members, source_id, target_id, records, lines, other);
            lemma_with_pair(
                group.pair_bases,
                source_id,
                target_id,
                ids.baseline,
                NORMALIZATION_VERSION,
                other,
                target_id,
            );
            lemma_with_pair(
                group.pair_bases,
                source_id,
                target_id,
                ids.baseline,
                NORMALIZATION_VERSION,
                source_id,
                other,
            );
        }
    }
}

proof fn lemma_inherit_adds(
    pairs: Seq<PairView>,
    members: Seq<MemberView>,
    source: Seq<char>,
    target: Seq<char>,
    records: Seq<BaselineView>,
    lines: Seq<Seq<char>>,
)
    ensures
        pairs.is_prefix_of(inherit(pairs, members, source, target, records, lines)),
    decreases members.len(),
{
    if members.len() > 0 {
        lemma_inherit_adds(pairs, members.drop_last(), source, target, records, lines);
    }
}

proof fn lemma_inherits(
    pairs: Seq<PairView>,
    members: Seq<MemberView>,
    source: Seq<char>,
    target: Seq<char>,
    records: Seq<BaselineView>,
    lines: Seq<Seq<char>>,
    other: Seq<char>,
)
    requires
        other != source,
        other != target,
        source != target,
    ensures
        ({
            let all = inherit(pairs, members, source, target, records, lines);
            let met = exists|k: int|
                0 <= k < members.len() && (#[trigger] members[k]).member_id == other;
            &&& common(all, source, other) == common(pairs, source, other)
            &&& common(all, other, target) == match common(pairs, other, target) {
                Some(held) => Some(held),
                None => match common(pairs, source, other) {
                    Some(held) => if met && inheritable(records, held, lines) {
                        Some(held)
                    } else {
                        None
                    },
                    None => None,
                },
            }
        }),
    decreases members.len(),
{
    if members.len() > 0 {
        let front = members.drop_last();
        let n = members.len() - 1;
        let id = members.last().member_id;
        lemma_inherits(pairs, front, source, target, records, lines, other);
        let before = inherit(pairs, front, source, target, records, lines);
        let all = inherit(pairs, members, source, target, records, lines);
        assert(members[n].member_id == id);
        assert forall|k: int| 0 <= k < front.len() implies #[trigger] front[k] == members[k] by {}
        let met = exists|k: int|
            0 <= k < members.len() && (#[trigger] members[k]).member_id == other;
        let met_before = exists|k: int|
            0 <= k < front.len() && (#[trigger] front[k]).member_id == other;
        if met_before {
            let k = choose|k: int|
                0 <= k < front.len() && (#[trigger] front[k]).member_id == other;
            assert(members[k].member_id == other);
        }
        if met && id != other {
            let k = choose|k: int|
                0 <= k < members.len() && (#[trigger] members[k]).member_id == other;
            assert(front[k].member_id == other);
        }
        if id != source && id != target {
            match pair_from(before, source, id, 0) {
                Some(i) => {
                    let held = before[i].baseline_ref;
                    let version = before[i].normalization_version;
                    lemma_with_pair(before, id, target, held, version, other, target);
                    lemma_with_pair(before, id, target, held, version, source, other);
                },
                None => {},
            }
        }
    }
}

/// A baseline is among the lines where the lines start with what it holds, and nowhere else.
pub proof fn law_baseline_is_the_start_of_the_lines(
    records: Seq<BaselineView>,
    baseline_ref: Seq<char>,
    held: Seq<Seq<char>>,
    more: Seq<Seq<char>>,
    lines: Seq<Seq<char>>,
)
    ensures
        records.contains(BaselineView { baseline_ref, line_digests: held }) ==> inheritable(
            records,
            baseline_ref,
            held + more,
        ),
        (forall|i: int|
            0 <= i < records.len() && (#[trigger] records[i]).baseline_ref == baseline_ref ==> {
                ||| records[i].line_digests.len() > lines.len()
                ||| exists|k: int|
                    0 <= k < records[i].line_digests.len() && records[i].line_digests[k]
                        != #[trigger] lines[k]
            }) ==> !inheritable(records, baseline_ref, lines),
{
    if records.contains(BaselineView { baseline_ref, line_digests: held }) {
        let i = choose|i: int|
            0 <= i < records.len() && records[i] == (BaselineView {
                baseline_ref,
                line_digests: held,
            });
        assert(records[i].line_digests.is_prefix_of(held + more)) by {
            assert((held + more).subrange(0, held.len() as int) =~= held);
        }
    }
    if inheritable(records, baseline_ref, lines) {
        let i = choose|i: int|
            0 <= i < records.len() && (#[trigger] records[i]).baseline_ref == baseline_ref
                && records[i].line_digests.is_prefix_of(lines);
        assert forall|k: int| 0 <= k < records[i].line_digests.len() implies
            records[i].line_digests[k] == #[trigger] lines[k] by {
            assert(lines.subrange(0, records[i].line_digests.len() as int)[k] == lines[k]);
        }
    }
}

/// The links of a copy are in order where the store can be read and the first group with the
/// copy's id holds both sides; else the complaint says which of these fails.
pub proof fn law_links_hold_both_sides(store: StoreView, operation: OperationView, g: int)
    requires
        0 <= g < store.groups.len(),
        store.groups[g].id == operation.group_id,
        forall|h: int| 0 <= h < g ==> (#[trigger] store.groups[h]).id != operation.group_id,
    ensures
        ({
            let both = has_member(
                store.groups[g].members,
                operation.source.uid,
                operation.source.session_id,
            ) && has_member(
                store.groups[g].members,
                operation.target.uid,
                operation.target.session_id,
            );
            links_complaint(StoreStateView::Ready(store), operation) == if both {
                None
            } else {
                Some("关联成员缺失，已停止恢复"@)
            }
        }),
{
    lemma_group_from(store.groups, operation.group_id, 0);
    assert(group_from(store.groups, operation.group_id, 0) == Some(g)) by {
        match group_from(store.groups, operation.group_id, 0) {
            Some(i) => {
                if i < g {
                    assert(store.groups[i].id != operation.group_id);
                }
            },
            None => {},
        }
    }
    let members = store.groups[g].members;
    lemma_member_from(members, operation.source.uid, operation.source.session_id, 0);
    lemma_member_from(members, operation.target.uid, operation.target.session_id, 0);
    match member_from(members, operation.source.uid, operation.source.session_id, 0) {
        Some(i) => {
            assert(members[i].uid == operation.source.uid);
        },
        None => {},
    }
    match member_from(members, operation.target.uid, operation.target.session_id, 0) {
        Some(i) => {
            assert(members[i].uid == operation.target.uid);
        },
        None => {},
    }
}

/// Without the store, or without the copy's group in it, the links are not in order.
pub proof fn law_missing_links_are_told(
    store: StoreView,
    operation: OperationView,
    reason: Seq<char>,
)
    ensures
        (forall|h: int|
            0 <= h < store.groups.len() ==> (#[trigger] store.groups[h]).id != operation.group_id)
            ==> links_complaint(StoreStateView::Ready(store), operation) == Some(
            "关联组缺失，已停止恢复"@,
        ),
        links_complaint(StoreStateView::Missing, operation) == Some(
            "关联存储主文件缺失，已停止恢复"@,
        ),
        links_complaint(StoreStateView::Unavailable(reason), operation) == Some(reason),
{
    lemma_group_from(store.groups, operation.group_id, 0);
}

/// A copy goes through its phases in this order, and each is a phase of its own.
pub proof fn law_phases_are_in_order(a: OpPhase, b: OpPhase)
    ensures
        phase_rank(a) == phase_rank(b) ==> a == b,
        phase_rank(OpPhase::Prepared) < phase_rank(OpPhase::BodyWritten) < phase_rank(
            OpPhase::DbWritten,
        ) < phase_rank(OpPhase::MappingWritten) < phase_rank(OpPhase::LinksCommitted) < phase_rank(
            OpPhase::Completed,
        ) < phase_rank(OpPhase::Abandoned),
        unfinished(a) <==> phase_rank(a) < phase_rank(OpPhase::Completed),
{
}

} // verus!
