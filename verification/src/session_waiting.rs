//! Requests while other copies are waiting to be recovered: what recoveries leave alone, and what
//! that means for a session that was copied.

use vstd::prelude::*;

use crate::copy_request;
use crate::session_copy;
use crate::session_copy::CopyEventView;
use crate::session_copy::CopyOutcomeView;
use crate::session_link;
use crate::session_link::BaselineView;
use crate::session_link::GroupView;
use crate::session_link::IssueView;
use crate::session_link::LinkIdsView;
use crate::session_link::MemberView;
use crate::session_link::OperationView;
use crate::session_link::ReportView;
use crate::session_link::StoreView;
use crate::session_recovery;
use crate::session_recovery::OutcomeView;
use crate::session_recovery::RecoveryStage;
use crate::session_recovery::RecoveryView;
use crate::session_world;
use crate::session_world::awaits;
use crate::session_world::body_of;
use crate::session_world::copy_run;
use crate::session_world::input_for;
use crate::session_world::may_request;
use crate::session_world::owner_of;
use crate::session_world::recover_all;
use crate::session_world::recovery_effect;
use crate::session_world::recovery_run;
use crate::session_world::recovery_step;
use crate::session_world::reports_linked;
use crate::session_world::request_for;
use crate::session_world::store_to_write;
use crate::session_world::Chance;
use crate::session_world::Disk;
use crate::text;
use crate::variant::WbVariant;

verus! {

// ---------------------------------------------------------------------------
// Ids that are new
// ---------------------------------------------------------------------------

/// The record speaks of an id that chance gives.
pub open spec fn mentions(o: OperationView, ch: Chance) -> bool {
    ||| o.target.session_id == ch.copy.session
    ||| o.source.session_id == ch.copy.session
    ||| o.group_id == ch.copy.group
}

/// The ids that chance gives are new to the disk.
pub open spec fn is_new(d: Disk, ch: Chance) -> bool {
    &&& !d.bodies.contains_key(ch.copy.session)
    &&& d.store matches Some(s) ==> awaits(s, ch)
    &&& forall|i: int| 0 <= i < d.records.len() ==> !mentions(#[trigger] d.records[i], ch)
}

/// What is neither body nor row nor record nor link is the same.
pub open spec fn same_surroundings(d: Disk, e: Disk) -> bool {
    &&& e.login == d.login
    &&& e.accounts == d.accounts
    &&& e.supported == d.supported
    &&& e.obstacle == d.obstacle
    &&& e.link_obstacle == d.link_obstacle
}

proof fn lemma_commit_awaits(
    s: StoreView,
    o: OperationView,
    variant: WbVariant,
    lines: Seq<Seq<char>>,
    records: Seq<BaselineView>,
    ids: LinkIdsView,
    now: i64,
    ch: Chance,
)
    requires
        awaits(s, ch),
        !mentions(o, ch),
    ensures
        awaits(session_link::committed(s, o, variant, lines, records, ids, now), ch),
{
    let t = session_link::committed(s, o, variant, lines, records, ids, now);
    let new = ch.copy.session;
    session_world::law_commit_keeps_groups_distinct(s, o, variant, lines, records, ids, now);
    session_link::lemma_group_from(s.groups, o.group_id, 0);
    session_link::lemma_group_from(s.groups, ch.copy.group, 0);
    session_link::lemma_group_from(t.groups, ch.copy.group, 0);
    let fresh = GroupView {
        id: o.group_id,
        variant,
        created_at: now,
        members: seq![],
        pair_bases: seq![],
    };
    let (h, before) = match session_link::group_from(s.groups, o.group_id, 0) {
        Some(i) => (i, s.groups[i]),
        None => (s.groups.len() as int, fresh),
    };
    session_link::lemma_members_after(before, o.source, o.target, lines, records, ids, now);
    assert forall|g: int, m: int|
        0 <= g < t.groups.len() && 0 <= m < t.groups[g].members.len() implies (
    #[trigger] t.groups[g].members[m]).session_id != new by {
        if g == h {
            let after = t.groups[g].members;
            if m < before.members.len() {
                assert(after[m].session_id == before.members[m].session_id);
                assert(s.groups[g].members[m].session_id != new);
            }
        } else {
            assert(t.groups[g] == s.groups[g]);
            assert(s.groups[g].members[m].session_id != new);
        }
    }
    match session_link::group_from(t.groups, ch.copy.group, 0) {
        Some(i) => {
            if i < s.groups.len() {
                assert(s.groups[i].id == t.groups[i].id);
            }
        },
        None => {},
    }
}

proof fn lemma_step_keeps_new(d: Disk, v: RecoveryView, by: Chance, ch: Chance)
    requires
        is_new(d, ch),
        !mentions(v.operation, ch),
    ensures
        is_new(recovery_effect(d, v, by), ch),
        !mentions(recovery_step(d, v, by).operation, ch),
        same_surroundings(d, recovery_effect(d, v, by)),
{
    let o = v.operation;
    let e = recovery_effect(d, v, by);
    session_recovery::law_recovery_never_goes_back(
        v,
        session_world::recovery_answer(d, v),
        by.now,
    );
    match v.stage {
        RecoveryStage::CommitLinks => {
            match store_to_write(d) {
                Ok(s) => {
                    assert(awaits(s, ch));
                    lemma_commit_awaits(
                        s,
                        o,
                        o.variant,
                        v.content->0.line_digests,
                        d.baselines,
                        by.links,
                        by.now,
                        ch,
                    );
                },
                Err(_) => {},
            }
        },
        _ => {},
    }
    session_world::lemma_record_from(d.records, o.operation_id, 0);
    assert forall|i: int| 0 <= i < e.records.len() implies !mentions(#[trigger] e.records[i], ch) by {
        if i < d.records.len() {
            assert(!mentions(d.records[i], ch));
        }
    }
}

proof fn lemma_run_keeps_new(d: Disk, v: RecoveryView, by: Chance, ch: Chance)
    requires
        is_new(d, ch),
        !mentions(v.operation, ch),
    ensures
        is_new(recovery_run(d, v, by).0, ch),
        same_surroundings(d, recovery_run(d, v, by).0),
    decreases session_recovery::steps_left(v.stage),
{
    reveal(recovery_run);
    let w = recovery_step(d, v, by);
    if session_recovery::steps_left(w.stage) < session_recovery::steps_left(v.stage) {
        lemma_step_keeps_new(d, v, by, ch);
        lemma_run_keeps_new(recovery_effect(d, v, by), w, by, ch);
    }
}

proof fn lemma_recoveries_keep_new(d: Disk, list: Seq<OperationView>, by: Chance, ch: Chance)
    requires
        is_new(d, ch),
        forall|i: int| 0 <= i < list.len() ==> !mentions(#[trigger] list[i], ch),
    ensures
        is_new(recover_all(d, list, by).0, ch),
        same_surroundings(d, recover_all(d, list, by).0),
    decreases list.len(),
{
    reveal(recover_all);
    if list.len() > 0 {
        let front = list.drop_last();
        assert forall|i: int| 0 <= i < front.len() implies !mentions(#[trigger] front[i], ch) by {
            assert(front[i] == list[i]);
        }
        lemma_recoveries_keep_new(d, front, by, ch);
        assert(!mentions(list[list.len() - 1], ch));
        lemma_run_keeps_new(
            recover_all(d, front, by).0,
            session_recovery::taken_up(list.last()),
            by,
            ch,
        );
    }
}

// ---------------------------------------------------------------------------
// A session and its copy
// ---------------------------------------------------------------------------

/// A session of one user, and the session that another user has for it.
pub struct Pair {
    pub variant: WbVariant,
    pub source_uid: Seq<char>,
    pub id: Seq<char>,
    pub uid: Seq<char>,
    pub new_id: Seq<char>,
}

/// The pair, seen from the other side.
pub open spec fn turned(p: Pair) -> Pair {
    Pair { source_uid: p.uid, id: p.new_id, uid: p.source_uid, new_id: p.id, ..p }
}

/// The links give the one for the other.
pub open spec fn is_linked(s: StoreView, p: Pair) -> bool {
    &&& s.version == session_link::STORE_VERSION
    &&& session_link::counterpart(s, p.variant, p.source_uid, p.id, p.uid) == Some(p.new_id)
}

/// Both sessions are on disk, each its user's, and the links give the one for the other.
pub open spec fn stands(d: Disk, p: Pair) -> bool {
    &&& body_of(d, p.id) is Ready
    &&& body_of(d, p.new_id) is Ready
    &&& owner_of(d, p.id) == Some(p.source_uid)
    &&& owner_of(d, p.new_id) == Some(p.uid)
    &&& d.store matches Some(s) && is_linked(s, p)
}

/// The place of the group that the session of the pair is looked up in.
pub open spec fn group_of(s: StoreView, p: Pair) -> int {
    session_link::identity_from(s.groups, p.variant, p.source_uid, p.id, 0)->0
}

/// The copy of the record, put down in the links, leaves the pair as it is: it has another id
/// than the two sessions, it does not count for the user in the group of the pair in place of
/// the one of the pair, and it does not put the session into an earlier group.
pub open spec fn leaves_alone(s: StoreView, o: OperationView, p: Pair) -> bool {
    let g = group_of(s, p);
    &&& o.target.session_id != p.id
    &&& o.target.session_id != p.new_id
    &&& session_link::group_from(s.groups, o.group_id, 0) matches Some(h) ==> {
        &&& h == g ==> o.target.uid != p.uid && (o.source.uid == p.uid
            ==> session_link::member_from(
            s.groups[g].members,
            o.source.uid,
            o.source.session_id,
            0,
        ) is Some)
        &&& h < g ==> !(o.source.uid == p.source_uid && o.source.session_id == p.id)
    }
}

/// The record is of another copy than one of the session for the user, and leaves the pair alone.
pub open spec fn is_other(s: StoreView, o: OperationView, p: Pair) -> bool {
    &&& leaves_alone(s, o, p)
    &&& !session_link::is_of_request(o, p.source_uid, p.id, p.uid)
}

/// The copies that are under way are other ones.
pub open spec fn others_wait(d: Disk, p: Pair) -> bool {
    forall|i: int|
        0 <= i < d.records.len() && session_link::is_pending(#[trigger] d.records[i], p.variant)
            ==> is_other(d.store->0, d.records[i], p)
}

proof fn lemma_active_unchanged(
    before: Seq<MemberView>,
    after: Seq<MemberView>,
    uid: Seq<char>,
    from: int,
)
    requires
        0 <= from <= before.len() <= after.len(),
        forall|j: int| 0 <= j < before.len() ==> (#[trigger] after[j]).uid == before[j].uid,
        forall|j: int|
            0 <= j < before.len() && before[j].uid == uid ==> #[trigger] after[j] == before[j],
        forall|j: int| before.len() <= j < after.len() ==> (#[trigger] after[j]).uid != uid,
    ensures
        session_link::active_from(after, uid, from) == session_link::active_from(
            before,
            uid,
            from,
        ),
    decreases before.len() - from,
{
    if from < before.len() {
        lemma_active_unchanged(before, after, uid, from + 1);
        assert(after[from].uid == before[from].uid);
    } else {
        session_link::lemma_active_from(after, uid, from);
    }
}

proof fn lemma_known_stays(
    before: Seq<MemberView>,
    after: Seq<MemberView>,
    uid: Seq<char>,
    id: Seq<char>,
)
    requires
        before.len() <= after.len(),
        forall|j: int|
            0 <= j < before.len() ==> (#[trigger] after[j]).uid == before[j].uid
                && after[j].session_id == before[j].session_id,
        session_link::member_from(before, uid, id, 0) is Some,
    ensures
        session_link::member_from(after, uid, id, 0) is Some,
{
    session_link::lemma_member_from(before, uid, id, 0);
    session_link::lemma_member_from(after, uid, id, 0);
    let m = session_link::member_from(before, uid, id, 0)->0;
    assert(after[m].uid == uid && after[m].session_id == id);
}

/// The copy of a record that leaves the pair alone keeps it linked, and what leaves it alone
/// before leaves it alone after.
proof fn lemma_commit_keeps_pair(
    s: StoreView,
    o: OperationView,
    lines: Seq<Seq<char>>,
    records: Seq<BaselineView>,
    ids: LinkIdsView,
    now: i64,
    p: Pair,
)
    requires
        is_linked(s, p),
        leaves_alone(s, o, p),
    ensures
        ({
            let t = session_link::committed(s, o, p.variant, lines, records, ids, now);
            &&& is_linked(t, p)
            &&& forall|q: OperationView| leaves_alone(s, q, p) ==> #[trigger] leaves_alone(t, q, p)
        }),
{
    let t = session_link::committed(s, o, p.variant, lines, records, ids, now);
    let g = group_of(s, p);
    let fresh = GroupView {
        id: o.group_id,
        variant: p.variant,
        created_at: now,
        members: seq![],
        pair_bases: seq![],
    };
    session_link::lemma_group_from(s.groups, o.group_id, 0);
    let (h, before) = match session_link::group_from(s.groups, o.group_id, 0) {
        Some(i) => (i, s.groups[i]),
        None => (s.groups.len() as int, fresh),
    };
    let after = t.groups[h].members;
    session_link::lemma_members_after(before, o.source, o.target, lines, records, ids, now);
    session_link::lemma_identity_from(s.groups, p.variant, p.source_uid, p.id, 0);
    session_link::lemma_identity_from(t.groups, p.variant, p.source_uid, p.id, 0);
    assert forall|j: int| 0 <= j < g implies !session_link::holds_identity(
        #[trigger] t.groups[j],
        p.variant,
        p.source_uid,
        p.id,
    ) by {
        assert(!session_link::holds_identity(s.groups[j], p.variant, p.source_uid, p.id));
        if j == h {
            session_link::lemma_member_from(after, p.source_uid, p.id, 0);
            session_link::lemma_member_from(before.members, p.source_uid, p.id, 0);
            match session_link::member_from(after, p.source_uid, p.id, 0) {
                Some(m) => {
                    assert(after[m].uid == p.source_uid);
                    if m < before.members.len() {
                        assert(before.members[m].uid == p.source_uid
                            && before.members[m].session_id == p.id);
                    }
                },
                None => {},
            }
        }
    }
    let old = s.groups[g].members;
    let new = t.groups[g].members;
    if g == h {
        lemma_known_stays(old, new, p.source_uid, p.id);
        lemma_active_unchanged(old, new, p.uid, 0);
        session_link::lemma_active_from(old, p.uid, 0);
    }
    assert(session_link::holds_identity(t.groups[g], p.variant, p.source_uid, p.id));
    assert(session_link::identity_from(t.groups, p.variant, p.source_uid, p.id, 0) == Some(g));
    assert(is_linked(t, p));
    assert forall|q: OperationView| leaves_alone(s, q, p) implies #[trigger] leaves_alone(
        t,
        q,
        p,
    ) by {
        session_link::lemma_group_from(s.groups, q.group_id, 0);
        session_link::lemma_group_from(t.groups, q.group_id, 0);
        assert forall|j: int| 0 <= j < s.groups.len() implies (#[trigger] t.groups[j]).id
            == s.groups[j].id by {}
        match (
            session_link::group_from(s.groups, q.group_id, 0),
            session_link::group_from(t.groups, q.group_id, 0),
        ) {
            (Some(i), Some(k)) => {
                assert(t.groups[i].id == q.group_id);
                if k < i {
                    assert(s.groups[k].id == t.groups[k].id);
                }
                assert(k == i);
                if i == g && g == h && q.source.uid == p.uid {
                    lemma_known_stays(old, new, q.source.uid, q.source.session_id);
                }
            },
            (Some(i), None) => {
                assert(t.groups[i].id == q.group_id);
            },
            (None, Some(k)) => {
                if k < s.groups.len() {
                    assert(s.groups[k].id == t.groups[k].id);
                }
            },
            (None, None) => {},
        }
    }
}

// ---------------------------------------------------------------------------
// What recoveries leave alone
// ---------------------------------------------------------------------------

/// The two sessions of the pair are as they were, and what leaves the pair alone before leaves it
/// alone after.
spec fn pair_kept(d: Disk, e: Disk, p: Pair) -> bool {
    &&& same_surroundings(d, e)
    &&& stands(e, p)
    &&& e.bodies[p.id] == d.bodies[p.id]
    &&& e.bodies[p.new_id] == d.bodies[p.new_id]
    &&& forall|q: OperationView|
        leaves_alone(d.store->0, q, p) ==> #[trigger] leaves_alone(e.store->0, q, p)
}

/// No copy under way is of the session for the user.
spec fn not_under_way(d: Disk, p: Pair) -> bool {
    forall|i: int|
        0 <= i < d.records.len() && session_link::is_pending(#[trigger] d.records[i], p.variant)
            ==> !session_link::is_of_request(d.records[i], p.source_uid, p.id, p.uid)
}

proof fn lemma_step_keeps_pair(d: Disk, v: RecoveryView, by: Chance, p: Pair)
    requires
        stands(d, p),
        not_under_way(d, p),
        is_other(d.store->0, v.operation, p),
        v.operation.variant == p.variant,
    ensures
        pair_kept(d, recovery_effect(d, v, by), p),
        not_under_way(recovery_effect(d, v, by), p),
        is_other(recovery_effect(d, v, by).store->0, recovery_step(d, v, by).operation, p),
        recovery_step(d, v, by).operation.variant == p.variant,
{
    let o = v.operation;
    let e = recovery_effect(d, v, by);
    let w = recovery_step(d, v, by);
    session_recovery::law_recovery_never_goes_back(
        v,
        session_world::recovery_answer(d, v),
        by.now,
    );
    match v.stage {
        RecoveryStage::CommitLinks => {
            match store_to_write(d) {
                Ok(s) => {
                    assert(s == d.store->0);
                    lemma_commit_keeps_pair(
                        s,
                        o,
                        v.content->0.line_digests,
                        d.baselines,
                        by.links,
                        by.now,
                        p,
                    );
                },
                Err(_) => {},
            }
        },
        _ => {},
    }
    assert(w.operation.group_id == o.group_id);
    assert(leaves_alone(e.store->0, o, p));
    assert(body_of(e, p.id) == body_of(d, p.id));
    assert(body_of(e, p.new_id) == body_of(d, p.new_id));
    session_world::lemma_record_from(d.records, o.operation_id, 0);
    assert forall|i: int|
        0 <= i < e.records.len() && session_link::is_pending(
            #[trigger] e.records[i],
            p.variant,
        ) implies !session_link::is_of_request(e.records[i], p.source_uid, p.id, p.uid) by {
        if i < d.records.len() && e.records[i] != o {
            assert(e.records[i] == d.records[i]);
        }
    }
}

proof fn lemma_run_keeps_pair(d: Disk, v: RecoveryView, by: Chance, p: Pair)
    requires
        stands(d, p),
        not_under_way(d, p),
        is_other(d.store->0, v.operation, p),
        v.operation.variant == p.variant,
    ensures
        pair_kept(d, recovery_run(d, v, by).0, p),
        not_under_way(recovery_run(d, v, by).0, p),
    decreases session_recovery::steps_left(v.stage),
{
    reveal(recovery_run);
    let w = recovery_step(d, v, by);
    if session_recovery::steps_left(w.stage) < session_recovery::steps_left(v.stage) {
        let e = recovery_effect(d, v, by);
        let f = recovery_run(e, w, by).0;
        lemma_step_keeps_pair(d, v, by, p);
        lemma_run_keeps_pair(e, w, by, p);
        assert forall|q: OperationView|
            leaves_alone(d.store->0, q, p) implies #[trigger] leaves_alone(f.store->0, q, p) by {
            assert(leaves_alone(e.store->0, q, p));
        }
    }
}

proof fn lemma_recoveries_keep_pair(d: Disk, list: Seq<OperationView>, by: Chance, p: Pair)
    requires
        stands(d, p),
        not_under_way(d, p),
        forall|i: int|
            0 <= i < list.len() ==> is_other(d.store->0, #[trigger] list[i], p)
                && list[i].variant == p.variant,
    ensures
        pair_kept(d, recover_all(d, list, by).0, p),
        not_under_way(recover_all(d, list, by).0, p),
    decreases list.len(),
{
    reveal(recover_all);
    if list.len() > 0 {
        let front = list.drop_last();
        assert forall|i: int| 0 <= i < front.len() implies is_other(
            d.store->0,
            #[trigger] front[i],
            p,
        ) && front[i].variant == p.variant by {
            assert(front[i] == list[i]);
        }
        lemma_recoveries_keep_pair(d, front, by, p);
        let e = recover_all(d, front, by).0;
        let o = list.last();
        assert(is_other(d.store->0, list[list.len() - 1], p));
        assert(leaves_alone(e.store->0, o, p));
        lemma_run_keeps_pair(e, session_recovery::taken_up(o), by, p);
        let f = recover_all(d, list, by).0;
        assert forall|q: OperationView|
            leaves_alone(d.store->0, q, p) implies #[trigger] leaves_alone(f.store->0, q, p) by {
            assert(leaves_alone(e.store->0, q, p));
        }
    }
}

// ---------------------------------------------------------------------------
// What recoveries complain of
// ---------------------------------------------------------------------------

/// The character does not stand in the text.
spec fn lacks(t: Seq<char>, c: char) -> bool {
    forall|i: int| 0 <= i < t.len() ==> #[trigger] t[i] != c
}

/// The text lacks a character of the words with which a record that cannot be read is reported.
spec fn is_of_other_words(t: Seq<char>) -> bool {
    lacks(t, '操') || lacks(t, '解')
}

proof fn lemma_other_words(t: Seq<char>)
    requires
        is_of_other_words(t),
    ensures
        !text::includes(t, session_recovery::UNPARSEABLE_OPERATION_REASON@),
{
    reveal_strlit("操作记录无法解析");
    let words = session_recovery::UNPARSEABLE_OPERATION_REASON@;
    if text::includes(t, words) {
        let i = choose|i: int| text::occurs_at(t, words, i);
        assert(t.subrange(i, i + words.len())[0] == t[i]);
        assert(t.subrange(i, i + words.len())[6] == t[i + 6]);
    }
}

proof fn lemma_words()
    ensures
        lacks("目标正文与操作记录不一致（可能被其它程序改动），已停止恢复"@, '解'),
        lacks("目标正文不可验证（"@, '操'),
        lacks("），已停止恢复"@, '操'),
        lacks("正文含有无法解析的行"@, '操'),
        lacks("目标正文丢失，已停止恢复"@, '解'),
        lacks("目标会话行归属异常，已停止恢复"@, '解'),
        lacks("目标会话行丢失，已停止恢复"@, '解'),
        lacks("会话行写入失败（"@, '解'),
        lacks("SourceRowMissing"@, '解'),
        lacks("Inserted"@, '解'),
        lacks("NoSessionsTable"@, '解'),
        lacks("NoDb"@, '解'),
        lacks("），保留操作待重试"@, '解'),
        lacks("云端映射丢失或被改动，已停止恢复"@, '解'),
        lacks("关联组缺失，已停止恢复"@, '解'),
        lacks("关联成员缺失，已停止恢复"@, '解'),
        lacks("关联存储主文件缺失，已停止恢复"@, '解'),
        lacks("关联存储主文件缺失，但仍有残留的基线或未完成操作，已保留现场"@, '解'),
        lacks("关联存储无法解析，已保留现场"@, '操'),
        lacks("关联存储版本不受支持，已保留现场"@, '解'),
{
    reveal_strlit("目标正文与操作记录不一致（可能被其它程序改动），已停止恢复");
    reveal_strlit("目标正文不可验证（");
    reveal_strlit("），已停止恢复");
    reveal_strlit("正文含有无法解析的行");
    reveal_strlit("目标正文丢失，已停止恢复");
    reveal_strlit("目标会话行归属异常，已停止恢复");
    reveal_strlit("目标会话行丢失，已停止恢复");
    reveal_strlit("会话行写入失败（");
    reveal_strlit("SourceRowMissing");
    reveal_strlit("Inserted");
    reveal_strlit("NoSessionsTable");
    reveal_strlit("NoDb");
    reveal_strlit("），保留操作待重试");
    reveal_strlit("云端映射丢失或被改动，已停止恢复");
    reveal_strlit("关联组缺失，已停止恢复");
    reveal_strlit("关联成员缺失，已停止恢复");
    reveal_strlit("关联存储主文件缺失，已停止恢复");
    reveal_strlit("关联存储主文件缺失，但仍有残留的基线或未完成操作，已保留现场");
    reveal_strlit("关联存储无法解析，已保留现场");
    reveal_strlit("关联存储版本不受支持，已保留现场");
}

/// The outcome is not reported as of a record that cannot be read.
spec fn is_readable(o: OutcomeView) -> bool {
    o matches OutcomeView::NeedsRecovery(i) ==> i.retryable || is_of_other_words(i.reason)
}

/// What a recovery says is said in other words than that a record cannot be read.
spec fn words_fit(d: Disk, v: RecoveryView) -> bool {
    &&& session_recovery::in_order(v)
    &&& v.outcome matches Some(o) ==> is_readable(o)
    &&& v.stage == RecoveryStage::VerifyRow ==> owner_of(d, v.operation.target.session_id)
        == Some(v.operation.target.uid)
}

proof fn lemma_lacks_concat(a: Seq<char>, b: Seq<char>, c: char)
    requires
        lacks(a, c),
        lacks(b, c),
    ensures
        lacks(a + b, c),
{
}

proof fn lemma_step_words(d: Disk, v: RecoveryView, by: Chance)
    requires
        words_fit(d, v),
        v.stage != RecoveryStage::Finished,
    ensures
        words_fit(recovery_effect(d, v, by), recovery_step(d, v, by)),
        session_recovery::steps_left(recovery_step(d, v, by).stage) < session_recovery::steps_left(
            v.stage,
        ),
{
    lemma_words();
    session_recovery::law_recovery_replays_nothing(
        v,
        session_world::recovery_answer(d, v),
        by.now,
    );
    match v.stage {
        RecoveryStage::CheckBody => {
            let reason = "正文含有无法解析的行"@;
            lemma_lacks_concat("目标正文不可验证（"@, reason, '操');
            lemma_lacks_concat("目标正文不可验证（"@ + reason, "），已停止恢复"@, '操');
        },
        RecoveryStage::InsertRow => {
            match session_world::insertion(d, v.operation) {
                Ok(o) => {
                    let name = session_recovery::outcome_name(o);
                    lemma_lacks_concat("会话行写入失败（"@, name, '解');
                    lemma_lacks_concat("会话行写入失败（"@ + name, "），保留操作待重试"@, '解');
                },
                Err(_) => {},
            }
        },
        _ => {},
    }
}

proof fn lemma_run_words(d: Disk, v: RecoveryView, by: Chance)
    requires
        words_fit(d, v),
    ensures
        recovery_run(d, v, by).1.outcome matches Some(o) && is_readable(o),
    decreases session_recovery::steps_left(v.stage),
{
    reveal(recovery_run);
    if v.stage != RecoveryStage::Finished {
        lemma_step_words(d, v, by);
        lemma_run_words(recovery_effect(d, v, by), recovery_step(d, v, by), by);
    }
}

proof fn lemma_recoveries_words(d: Disk, list: Seq<OperationView>, by: Chance)
    requires
        forall|i: int|
            0 <= i < list.len() ==> session_link::unfinished((#[trigger] list[i]).phase),
    ensures
        forall|i: int|
            0 <= i < recover_all(d, list, by).1.len() ==> is_readable(
                #[trigger] recover_all(d, list, by).1[i],
            ),
    decreases list.len(),
{
    reveal(recover_all);
    if list.len() > 0 {
        let front = list.drop_last();
        let o = list.last();
        assert forall|i: int| 0 <= i < front.len() implies session_link::unfinished(
            (#[trigger] front[i]).phase,
        ) by {
            assert(front[i] == list[i]);
        }
        lemma_recoveries_words(d, front, by);
        let before = recover_all(d, front, by);
        let v = session_recovery::taken_up(o);
        assert(session_link::unfinished(list[list.len() - 1].phase));
        session_recovery::law_recovery_replays_nothing(
            v,
            session_world::recovery_answer(before.0, v),
            by.now,
        );
        lemma_run_words(before.0, v, by);
        let all = recover_all(d, list, by).1;
        assert forall|i: int| 0 <= i < all.len() implies is_readable(#[trigger] all[i]) by {
            if i < before.1.len() {
                assert(all[i] == before.1[i]);
            }
        }
    }
}

proof fn lemma_report_is_readable(outcomes: Seq<OutcomeView>)
    requires
        forall|i: int| 0 <= i < outcomes.len() ==> is_readable(#[trigger] outcomes[i]),
    ensures
        forall|i: int|
            0 <= i < session_recovery::full_report(seq![], outcomes).needs_recovery.len()
                ==> !copy_request::is_unreadable(
                #[trigger] session_recovery::full_report(seq![], outcomes).needs_recovery[i],
            ),
    decreases outcomes.len(),
{
    if outcomes.len() > 0 {
        let front = outcomes.drop_last();
        assert forall|i: int| 0 <= i < front.len() implies is_readable(#[trigger] front[i]) by {
            assert(front[i] == outcomes[i]);
        }
        lemma_report_is_readable(front);
        let before = session_recovery::full_report(seq![], front).needs_recovery;
        let all = session_recovery::full_report(seq![], outcomes).needs_recovery;
        assert(is_readable(outcomes[outcomes.len() - 1]));
        assert forall|i: int| 0 <= i < all.len() implies !copy_request::is_unreadable(
            #[trigger] all[i],
        ) by {
            if i < before.len() {
                assert(all[i] == before[i]);
            } else if !all[i].retryable {
                lemma_other_words(all[i].reason);
            }
        }
    }
}

proof fn lemma_none_unreadable(issues: Seq<IssueView>, from: int)
    requires
        0 <= from,
        forall|i: int| 0 <= i < issues.len() ==> !copy_request::is_unreadable(#[trigger] issues[i]),
    ensures
        copy_request::unreadable_from(issues, from) is None,
    decreases issues.len() - from,
{
    if from < issues.len() {
        assert(!copy_request::is_unreadable(issues[from]));
        lemma_none_unreadable(issues, from + 1);
    }
}

/// A disk whose records can be read is not reported to hold one that cannot.
proof fn lemma_recovery_is_readable(d: Disk, variant: WbVariant, ch: Chance)
    ensures
        copy_request::unreadable_from(recovery_of(d, variant, ch).1.needs_recovery, 0) is None,
{
    let list = session_link::pending(d.records, variant);
    assert forall|i: int| 0 <= i < list.len() implies session_link::unfinished(
        (#[trigger] list[i]).phase,
    ) by {
        assert(list.contains(list[i]));
        session_world::lemma_pending_is_recorded(d.records, variant, list[i]);
    }
    lemma_recoveries_words(d, list, ch);
    let outcomes = recover_all(d, list, ch).1;
    lemma_report_is_readable(outcomes);
    lemma_none_unreadable(
        session_recovery::full_report(seq![], outcomes).needs_recovery,
        0,
    );
}

// ---------------------------------------------------------------------------
// Requests
// ---------------------------------------------------------------------------

/// What a request finds to recover, and what it then reports of it.
pub open spec fn recovery_of(d: Disk, variant: WbVariant, ch: Chance) -> (Disk, ReportView) {
    let run = recover_all(d, session_link::pending(d.records, variant), ch);
    (run.0, session_recovery::full_report(seq![], run.1))
}

proof fn lemma_none_of_request(pending: Seq<OperationView>, p: Pair, from: int)
    requires
        0 <= from,
        forall|i: int|
            0 <= i < pending.len() ==> !session_link::is_of_request(
                #[trigger] pending[i],
                p.source_uid,
                p.id,
                p.uid,
            ),
    ensures
        session_link::request_from(pending, p.source_uid, p.id, p.uid, from) is None,
    decreases pending.len() - from,
{
    if from < pending.len() {
        assert(!session_link::is_of_request(pending[from], p.source_uid, p.id, p.uid));
        lemma_none_of_request(pending, p, from + 1);
    }
}

/// A session that the user has already is reported as that, also where other copies wait to be
/// recovered: the request leaves what recovering them leaves and nothing else, and the two
/// sessions are as they were.
pub proof fn law_linked_session_is_reported(d: Disk, p: Pair, ch: Chance)
    requires
        may_request(d, p.variant, p.source_uid, p.uid),
        stands(d, p),
        others_wait(d, p),
    ensures
        ({
            let w = request_for(d, p.variant, p.uid, p.id, ch);
            &&& exists|needs: bool| #[trigger]
                reports_linked(w, p.source_uid, p.uid, p.id, p.new_id, needs)
            &&& w.disk == recovery_of(d, p.variant, ch).0
            &&& stands(w.disk, p)
            &&& w.disk.bodies[p.id] == d.bodies[p.id]
            &&& w.disk.bodies[p.new_id] == d.bodies[p.new_id]
        }),
{
    let list = session_link::pending(d.records, p.variant);
    let run = recover_all(d, list, ch);
    let e = run.0;
    let input = input_for(d, p.variant, p.source_uid, p.uid, p.id);
    assert forall|i: int| 0 <= i < list.len() implies is_other(d.store->0, #[trigger] list[i], p)
        && list[i].variant == p.variant by {
        assert(list.contains(list[i]));
        session_world::lemma_pending_is_recorded(d.records, p.variant, list[i]);
        let k = choose|k: int| 0 <= k < d.records.len() && d.records[k] == list[i];
        assert(session_link::is_pending(d.records[k], p.variant));
    }
    assert(not_under_way(d, p)) by {
        assert forall|i: int|
            0 <= i < d.records.len() && session_link::is_pending(
                #[trigger] d.records[i],
                p.variant,
            ) implies !session_link::is_of_request(d.records[i], p.source_uid, p.id, p.uid) by {
            assert(is_other(d.store->0, d.records[i], p));
        }
    }
    lemma_recoveries_keep_pair(d, list, ch, p);
    let pending = session_link::pending(e.records, p.variant);
    assert forall|i: int| 0 <= i < pending.len() implies !session_link::is_of_request(
        #[trigger] pending[i],
        p.source_uid,
        p.id,
        p.uid,
    ) by {
        assert(pending.contains(pending[i]));
        session_world::lemma_pending_is_recorded(e.records, p.variant, pending[i]);
        let k = choose|k: int| 0 <= k < e.records.len() && e.records[k] == pending[i];
        assert(session_link::is_pending(e.records[k], p.variant));
    }
    lemma_none_of_request(pending, p, 0);
    lemma_recovery_is_readable(d, p.variant, ch);
    session_world::lemma_request(d, p.variant, p.source_uid, p.uid, p.id, ch, e, run.1);
    session_world::lemma_copy_is_taken(e, input, pending, ch, p.new_id);
    let copy = copy_run(e, session_copy::begun(input, pending), ch);
    session_world::lemma_linked_lists(p.id, copy.1.result->0, p.new_id);
    let needs = session_recovery::full_report(seq![], run.1).needs_recovery.len() != 0
        || session_link::pending(e.records, p.variant).len() > 0;
    assert(reports_linked(
        request_for(d, p.variant, p.uid, p.id, ch),
        p.source_uid,
        p.uid,
        p.id,
        p.new_id,
        needs,
    ));
}

/// A copy that a request made stands, linked to its source, also where other copies waited to be
/// recovered; where the source counts for its user, the way back leads to it.
pub proof fn law_made_copy_stands(d: Disk, p: Pair, ch: Chance)
    requires
        may_request(d, p.variant, p.source_uid, p.uid),
        is_new(d, ch),
        request_for(d, p.variant, p.uid, p.id, ch).request.results.len() == 1,
        request_for(d, p.variant, p.uid, p.id, ch).request.results[0] matches Ok(
            CopyOutcomeView::Copied { new_id: n, .. },
        ) && n == p.new_id,
    ensures
        ({
            let made = request_for(d, p.variant, p.uid, p.id, ch).disk;
            &&& stands(made, p)
            &&& same_surroundings(d, made)
            &&& session_world::source_counts(
                recovery_of(d, p.variant, ch).0,
                p.variant,
                p.source_uid,
                p.id,
            ) ==> stands(made, turned(p))
        }),
{
    let list = session_link::pending(d.records, p.variant);
    let run = recover_all(d, list, ch);
    let e = run.0;
    let input = input_for(d, p.variant, p.source_uid, p.uid, p.id);
    lemma_recovery_is_readable(d, p.variant, ch);
    assert forall|i: int| 0 <= i < list.len() implies !mentions(#[trigger] list[i], ch) by {
        assert(list.contains(list[i]));
        session_world::lemma_pending_is_recorded(d.records, p.variant, list[i]);
        let k = choose|k: int| 0 <= k < d.records.len() && d.records[k] == list[i];
        assert(!mentions(d.records[k], ch));
    }
    lemma_recoveries_keep_new(d, list, ch, ch);
    session_world::lemma_request(d, p.variant, p.source_uid, p.uid, p.id, ch, e, run.1);
    let pending = session_link::pending(e.records, p.variant);
    let start = session_copy::begun(input, pending);
    let back = session_world::source_counts(e, p.variant, p.source_uid, p.id);
    session_copy::law_copy_is_in_order(
        input,
        pending,
        start,
        CopyEventView::Done(Ok(())),
        ch.copy,
        ch.now,
    );
    session_world::lemma_copy_run(e, e, start, ch, back, false);
    let copy = copy_run(e, start, ch);
    let w = request_for(d, p.variant, p.uid, p.id, ch);
    assert(w.request.results[0] == copy.1.result->0);
    assert(copy.1.result is Some);
    assert(copy.1.operation is Some);
}

/// A session that was copied is not copied again, also where other copies wait to be recovered:
/// the same request, made once more, reports the copy that was made, leaves what recovering the
/// others leaves and nothing else, and the two sessions are as they were. The same holds from the
/// other side, where the source counts for its user. (A copy under way that is for the same user
/// in the same group may take the place of the one that was made.)
pub proof fn law_copy_is_made_once_among_others(d: Disk, p: Pair, ch: Chance, later: Chance)
    requires
        may_request(d, p.variant, p.source_uid, p.uid),
        is_new(d, ch),
        request_for(d, p.variant, p.uid, p.id, ch).request.results.len() == 1,
        request_for(d, p.variant, p.uid, p.id, ch).request.results[0] matches Ok(
            CopyOutcomeView::Copied { new_id: n, .. },
        ) && n == p.new_id,
    ensures
        ({
            let made = request_for(d, p.variant, p.uid, p.id, ch).disk;
            let again = request_for(made, p.variant, p.uid, p.id, later);
            others_wait(made, p) ==> {
                &&& exists|needs: bool| #[trigger]
                    reports_linked(again, p.source_uid, p.uid, p.id, p.new_id, needs)
                &&& again.disk == recovery_of(made, p.variant, later).0
                &&& stands(again.disk, p)
                &&& again.disk.bodies[p.id] == made.bodies[p.id]
                &&& again.disk.bodies[p.new_id] == made.bodies[p.new_id]
            }
        }),
        ({
            let made = request_for(d, p.variant, p.uid, p.id, ch).disk;
            let other = Disk { login: Some(p.uid), ..made };
            let back = request_for(other, p.variant, p.source_uid, p.new_id, later);
            text::trim(p.source_uid) == p.source_uid && p.source_uid.len() > 0
                && session_world::source_counts(
                recovery_of(d, p.variant, ch).0,
                p.variant,
                p.source_uid,
                p.id,
            ) && others_wait(other, turned(p)) ==> {
                &&& exists|needs: bool| #[trigger]
                    reports_linked(back, p.uid, p.source_uid, p.new_id, p.id, needs)
                &&& back.disk == recovery_of(other, p.variant, later).0
                &&& stands(back.disk, turned(p))
            }
        }),
{
    let made = request_for(d, p.variant, p.uid, p.id, ch).disk;
    let other = Disk { login: Some(p.uid), ..made };
    law_made_copy_stands(d, p, ch);
    if others_wait(made, p) {
        law_linked_session_is_reported(made, p, later);
    }
    let t = turned(p);
    if stands(made, t) && may_request(other, p.variant, p.uid, p.source_uid) && others_wait(
        other,
        t,
    ) {
        assert(body_of(other, p.id) == body_of(made, p.id));
        assert(body_of(other, p.new_id) == body_of(made, p.new_id));
        assert(stands(other, t));
        law_linked_session_is_reported(other, t, later);
    }
}

} // verus!
