//! Requests that make up for copies that were broken off.

use vstd::prelude::*;

use crate::copy_request;
use crate::session_copy;
use crate::session_copy::InputView;
use crate::session_link;
use crate::session_link::OperationView;
use crate::session_link::OpPhase;
use crate::session_link::phase_rank;
use crate::session_link::StoreView;
use crate::session_recovery;
use crate::session_recovery::OutcomeView;
use crate::session_recovery::RecoveryStage;
use crate::session_recovery::RecoveryView;
use crate::session_world::body_of;
use crate::session_world::Chance;
use crate::session_world::copy_run;
use crate::session_world::Disk;
use crate::session_world::group_fits;
use crate::session_world::input_for;
use crate::session_world::is_alone;
use crate::session_world::is_mapped;
use crate::session_world::is_quiet;
use crate::session_world::is_unknown;
use crate::session_world::lemma_committed_is_linked;
use crate::session_world::lemma_copy_from_start;
use crate::session_world::lemma_copy_is_taken;
use crate::session_world::lemma_linked_lists;
use crate::session_world::lemma_pending_is_recorded;
use crate::session_world::lemma_quiet;
use crate::session_world::lemma_quiet_request;
use crate::session_world::lemma_record_saved;
use crate::session_world::lemma_request;
use crate::session_world::linked;
use crate::session_world::links_written;
use crate::session_world::mapped;
use crate::session_world::may_copy;
use crate::session_world::may_request;
use crate::session_world::owner_of;
use crate::session_world::recover_all;
use crate::session_world::recovery_effect;
use crate::session_world::recovery_run;
use crate::session_world::recovery_step;
use crate::session_world::reports_linked;
use crate::session_world::request_for;
use crate::session_world::saved;
use crate::session_world::store_of;
use crate::session_world::store_to_write;
use crate::session_world::Work;
use crate::variant::WbVariant;

verus! {

proof fn lemma_recovery_step(d: Disk, v: RecoveryView, ch: Chance, e: Disk, w: RecoveryView)
    requires
        recovery_effect(d, v, ch) == e,
        recovery_step(d, v, ch) == w,
        session_recovery::steps_left(w.stage) < session_recovery::steps_left(v.stage),
    ensures
        recovery_run(d, v, ch) == recovery_run(e, w, ch),
{
    reveal(recovery_run);
}

/// The copy that was broken off is brought to its end: it is mapped and in the links, no copy is
/// under way, and of bodies and rows nothing was written.
spec fn is_recovered(
    d: Disk,
    run: (Disk, RecoveryView),
    input: InputView,
    o: OperationView,
) -> bool {
    let e = run.0;
    &&& run.1.outcome == Some(OutcomeView::Recovered(o.operation_id))
    &&& is_quiet(e.records, o.variant)
    &&& is_mapped(e, o)
    &&& e.store matches Some(t) && linked(t, input, o.target.session_id, false)
    &&& e == Disk {
        channels: e.channels,
        store: e.store,
        baselines: e.baselines,
        records: e.records,
        ..d
    }
}

/// The copy that was broken off is of the input, and its body and row stand.
spec fn copy_stands(d: Disk, input: InputView, o: OperationView) -> bool {
    &&& body_of(d, o.target.session_id) is Ready
    &&& body_of(d, o.target.session_id)->Ready_0.total_digest == o.expected_content_digest
    &&& owner_of(d, o.target.session_id) == Some(o.target.uid)
    &&& is_alone(d.records, o.variant, o.operation_id)
    &&& input.source_uid != input.target_uid
    &&& o.source.uid == input.source_uid
    &&& o.source.session_id == input.session_id
    &&& o.target.uid == input.target_uid
    &&& o.variant == input.variant
}

/// The links can take the copy.
spec fn links_can_take(d: Disk, input: InputView, o: OperationView) -> bool {
    &&& d.link_obstacle is None
    &&& d.store matches Some(s) && s.revision < u64::MAX && is_unknown(s, o.target.session_id)
        && group_fits(s, input, o.group_id)
}

/// What the rest of a recovery needs, from the time on at which the copy is put down in the links.
proof fn lemma_recovery_commits(d: Disk, v: RecoveryView, input: InputView, ch: Chance)
    requires
        v.stage == RecoveryStage::CommitLinks,
        v.operation.phase == OpPhase::MappingWritten,
        v.content is Some,
        copy_stands(d, input, v.operation),
        links_can_take(d, input, v.operation),
        is_mapped(d, v.operation),
    ensures
        is_recovered(d, recovery_run(d, v, ch), input, v.operation),
{
    let o = v.operation;
    let c = v.content->0;
    let s = d.store->0;
    let now = ch.now;
    assert(store_to_write(d) == Ok::<StoreView, Seq<char>>(s));
    let d5 = links_written(d, o, c, ch);
    let o5 = session_link::phase_advanced(o, OpPhase::LinksCommitted, now);
    let v5 = RecoveryView { operation: o5, stage: RecoveryStage::SaveLinks, ..v };
    assert(OperationView { group_id: o.group_id, ..o } == o);
    lemma_recovery_step(d, v, ch, d5, v5);
    let d6 = saved(d5, o5);
    let o6 = session_link::phase_advanced(o5, OpPhase::Completed, now);
    let v6 = RecoveryView { operation: o6, stage: RecoveryStage::SaveCompleted, ..v5 };
    lemma_recovery_step(d5, v5, ch, d6, v6);
    let d7 = saved(d6, o6);
    let v7 = RecoveryView {
        stage: RecoveryStage::Finished,
        outcome: Some(OutcomeView::Recovered(o.operation_id)),
        ..v6
    };
    lemma_recovery_step(d6, v6, ch, d7, v7);
    assert(recovery_run(d7, v7, ch) == (d7, v7)) by {
        reveal(recovery_run);
    }
    lemma_record_saved(d.records, o.variant, o5);
    lemma_record_saved(d6.records, o.variant, o6);
    lemma_committed_is_linked(
        s,
        input,
        o,
        c.line_digests,
        d.baselines,
        o.target.session_id,
        ch.links,
        now,
        false,
    );
}

/// A copy that was broken off before it was mapped.
proof fn lemma_unmapped_is_recovered(d: Disk, input: InputView, o: OperationView, ch: Chance)
    requires
        o.phase == OpPhase::DbWritten,
        copy_stands(d, input, o),
        links_can_take(d, input, o),
        d.obstacle is None,
    ensures
        is_recovered(d, recovery_run(d, session_recovery::taken_up(o), ch), input, o),
{
    let c = body_of(d, o.target.session_id)->Ready_0;
    let v0 = session_recovery::taken_up(o);
    let v1 = RecoveryView { content: Some(c), stage: RecoveryStage::FindOwner, ..v0 };
    lemma_recovery_step(d, v0, ch, d, v1);
    let v2 = RecoveryView { stage: RecoveryStage::RegisterMapping, ..v1 };
    lemma_recovery_step(d, v1, ch, d, v2);
    let d3 = mapped(d, o);
    let o3 = session_link::phase_advanced(o, OpPhase::MappingWritten, ch.now);
    let v3 = RecoveryView { operation: o3, stage: RecoveryStage::SaveMapping, ..v2 };
    lemma_recovery_step(d, v2, ch, d3, v3);
    let d4 = saved(d3, o3);
    let v4 = RecoveryView { stage: RecoveryStage::CommitLinks, ..v3 };
    lemma_recovery_step(d3, v3, ch, d4, v4);
    lemma_record_saved(d.records, o.variant, o3);
    lemma_recovery_commits(d4, v4, input, ch);
}

/// A copy that was broken off before it was put down in the links.
proof fn lemma_unlinked_is_recovered(d: Disk, input: InputView, o: OperationView, ch: Chance)
    requires
        o.phase == OpPhase::MappingWritten,
        copy_stands(d, input, o),
        links_can_take(d, input, o),
        is_mapped(d, o),
    ensures
        is_recovered(d, recovery_run(d, session_recovery::taken_up(o), ch), input, o),
{
    let c = body_of(d, o.target.session_id)->Ready_0;
    let v0 = session_recovery::taken_up(o);
    let v1 = RecoveryView { content: Some(c), stage: RecoveryStage::FindOwner, ..v0 };
    lemma_recovery_step(d, v0, ch, d, v1);
    let v2 = RecoveryView { stage: RecoveryStage::CheckMapping, ..v1 };
    lemma_recovery_step(d, v1, ch, d, v2);
    let v3 = RecoveryView { stage: RecoveryStage::CommitLinks, ..v2 };
    lemma_recovery_step(d, v2, ch, d, v3);
    lemma_recovery_commits(d, v3, input, ch);
}

/// A copy of which only the end was not put down.
proof fn lemma_whole_is_recovered(d: Disk, input: InputView, o: OperationView, ch: Chance)
    requires
        o.phase == OpPhase::LinksCommitted,
        copy_stands(d, input, o),
        is_mapped(d, o),
        d.store matches Some(s) && linked(s, input, o.target.session_id, false),
        session_link::links_complaint(store_of(d), o) is None,
    ensures
        is_recovered(d, recovery_run(d, session_recovery::taken_up(o), ch), input, o),
        ({
            let e = recovery_run(d, session_recovery::taken_up(o), ch).0;
            e == Disk { records: e.records, ..d }
        }),
{
    let c = body_of(d, o.target.session_id)->Ready_0;
    let v0 = session_recovery::taken_up(o);
    let v1 = RecoveryView { content: Some(c), stage: RecoveryStage::FindOwner, ..v0 };
    lemma_recovery_step(d, v0, ch, d, v1);
    let v2 = RecoveryView { stage: RecoveryStage::CheckMapping, ..v1 };
    lemma_recovery_step(d, v1, ch, d, v2);
    let v3 = RecoveryView { stage: RecoveryStage::CheckLinks, ..v2 };
    lemma_recovery_step(d, v2, ch, d, v3);
    let o4 = session_link::phase_advanced(o, OpPhase::Completed, ch.now);
    let v4 = RecoveryView { operation: o4, stage: RecoveryStage::SaveCompleted, ..v3 };
    lemma_recovery_step(d, v3, ch, d, v4);
    let d5 = saved(d, o4);
    let v5 = RecoveryView {
        stage: RecoveryStage::Finished,
        outcome: Some(OutcomeView::Recovered(o.operation_id)),
        ..v4
    };
    lemma_recovery_step(d, v4, ch, d5, v5);
    assert(recovery_run(d5, v5, ch) == (d5, v5)) by {
        reveal(recovery_run);
    }
    lemma_record_saved(d.records, o.variant, o4);
}

/// A request that finds a copy broken off and can bring it to its end reports that copy.
proof fn lemma_retry(
    d: Disk,
    variant: WbVariant,
    source_uid: Seq<char>,
    uid: Seq<char>,
    id: Seq<char>,
    ch: Chance,
    o: OperationView,
)
    requires
        may_request(d, variant, source_uid, uid),
        session_link::pending(d.records, variant) == seq![o],
        body_of(d, id) is Ready,
        owner_of(d, id) == Some(source_uid),
        copy_stands(d, input_for(d, variant, source_uid, uid, id), o),
        is_recovered(
            d,
            recovery_run(d, session_recovery::taken_up(o), ch),
            input_for(d, variant, source_uid, uid, id),
            o,
        ),
    ensures
        is_made_up_for(
            d,
            request_for(d, variant, uid, id, ch),
            variant,
            source_uid,
            uid,
            id,
            o,
        ),
        request_for(d, variant, uid, id, ch).disk == recovery_run(
            d,
            session_recovery::taken_up(o),
            ch,
        ).0,
{
    let input = input_for(d, variant, source_uid, uid, id);
    let new_id = o.target.session_id;
    let none = Seq::<OperationView>::empty();
    let run = recovery_run(d, session_recovery::taken_up(o), ch);
    let e = run.0;
    let outcomes = seq![OutcomeView::Recovered(o.operation_id)];
    assert(recover_all(d, seq![o], ch) == (e, outcomes)) by {
        reveal_with_fuel(recover_all, 2);
        assert(seq![o].drop_last() =~= none);
        assert(Seq::<OutcomeView>::empty().push(OutcomeView::Recovered(o.operation_id))
            =~= outcomes);
    }
    assert(session_recovery::full_report(seq![], outcomes).needs_recovery.len() == 0) by {
        reveal_with_fuel(session_recovery::full_report, 2);
        assert(outcomes.drop_last() =~= Seq::<OutcomeView>::empty());
    }
    lemma_request(d, variant, source_uid, uid, id, ch, e, outcomes);
    lemma_quiet(e.records, variant);
    assert(body_of(e, id) == body_of(d, id));
    assert(body_of(e, new_id) == body_of(d, new_id));
    lemma_copy_is_taken(e, input, none, ch, new_id);
    let result = copy_run(e, session_copy::begun(input, none), ch).1.result->0;
    lemma_linked_lists(id, result, new_id);
    assert(reports_linked(request_for(d, variant, uid, id, ch), source_uid, uid, id, new_id, false));
}

/// The request brought the copy to its end that was broken off, and reported it, under its id: no
/// copy is under way any more, no second one was made, and the copy is its user's and mapped.
pub open spec fn is_made_up_for(
    d: Disk,
    w: Work,
    variant: WbVariant,
    source_uid: Seq<char>,
    uid: Seq<char>,
    id: Seq<char>,
    o: OperationView,
) -> bool {
    let new_id = o.target.session_id;
    &&& reports_linked(w, source_uid, uid, id, new_id, false)
    &&& is_quiet(w.disk.records, variant)
    &&& w.disk.bodies == d.bodies
    &&& w.disk.owners == d.owners
    &&& owner_of(w.disk, new_id) == Some(uid)
    &&& is_mapped(w.disk, o)
}

/// The request failed with the error once it had put the record `o` down: it reported the error,
/// and that there is something to recover; of bodies and rows it has left no other than those of
/// the copy.
pub open spec fn is_broken_off(
    d: Disk,
    w: Work,
    source_uid: Seq<char>,
    uid: Seq<char>,
    id: Seq<char>,
    o: OperationView,
    error: Seq<char>,
) -> bool {
    let new_id = o.target.session_id;
    &&& w.request.report == Some(
        Ok::<_, Seq<char>>(
            copy_request::report_json(
                source_uid,
                uid,
                copy_request::ListsView {
                    copied: seq![],
                    linked: seq![],
                    errors: seq![copy_request::error_json(id, error)],
                },
                true,
            ),
        ),
    )
    &&& w.disk.bodies.contains_key(new_id)
    &&& w.disk.bodies.remove(new_id) == d.bodies
    &&& w.disk.owners.remove(new_id) == d.owners.remove(new_id)
}

/// What a request leaves that began a copy and did not bring it to its end.
proof fn lemma_broken_off(
    d: Disk,
    variant: WbVariant,
    source_uid: Seq<char>,
    uid: Seq<char>,
    id: Seq<char>,
    ch: Chance,
    o: OperationView,
) -> (error: Seq<char>)
    requires
        may_copy(d, variant, source_uid, uid, ch),
        session_link::pending(request_for(d, variant, uid, id, ch).disk.records, variant) == seq![
            o,
        ],
        phase_rank(o.phase) >= phase_rank(OpPhase::DbWritten),
        phase_rank(o.phase) < phase_rank(OpPhase::LinksCommitted),
    ensures
        ({
            let w = request_for(d, variant, uid, id, ch);
            let e = w.disk;
            let input = input_for(d, variant, source_uid, uid, id);
            &&& is_broken_off(d, w, source_uid, uid, id, o, error)
            &&& copy_stands(e, input, o)
            &&& body_of(e, id) is Ready
            &&& owner_of(e, id) == Some(source_uid)
            &&& e.login == d.login
            &&& e.accounts == d.accounts
            &&& e.supported == d.supported
            &&& e.obstacle == d.obstacle
            &&& e.link_obstacle == d.link_obstacle
            &&& e.store matches Some(s) && is_unknown(s, o.target.session_id) && group_fits(
                s,
                input,
                o.group_id,
            )
            &&& o.phase == OpPhase::DbWritten ==> d.obstacle == Some(error)
            &&& o.phase == OpPhase::MappingWritten ==> is_mapped(e, o) && (d.link_obstacle == Some(
                error,
            ) || e.store->0.revision == u64::MAX)
        }),
{
    let input = input_for(d, variant, source_uid, uid, id);
    let run = copy_run(d, session_copy::begun(input, seq![]), ch);
    let failed = run.0;
    let v = run.1;
    lemma_quiet_request(d, variant, source_uid, uid, id, ch);
    lemma_copy_from_start(d, variant, source_uid, uid, id, ch, false);
    assert(seq![o][0] == o);
    lemma_pending_is_recorded(failed.records, variant, o);
    let i = choose|i: int| 0 <= i < failed.records.len() && failed.records[i] == o;
    assert(session_link::is_pending(failed.records[i], variant));
    assert(v.operation == Some(o));
    assert(v.result->0 is Err);
    let results = seq![v.result->0];
    assert(results.drop_last() =~= seq![]);
    reveal_with_fuel(copy_request::sorted_out, 2);
    assert(copy_request::sorted_out(seq![id], results) =~= copy_request::ListsView {
        copied: seq![],
        linked: seq![],
        errors: seq![copy_request::error_json(id, v.result->0->Err_0)],
    });
    assert(failed.bodies.remove(o.target.session_id) =~= d.bodies);
    v.result->0->Err_0
}

/// A request that failed at the mapping is made up for by the same request, once nothing keeps
/// the copy from being mapped.
pub proof fn law_failed_mapping_is_made_up_for(
    d: Disk,
    variant: WbVariant,
    source_uid: Seq<char>,
    uid: Seq<char>,
    id: Seq<char>,
    ch: Chance,
    later: Chance,
    o: OperationView,
)
    requires
        may_copy(d, variant, source_uid, uid, ch),
        ({
            let failed = request_for(d, variant, uid, id, ch).disk;
            &&& session_link::pending(failed.records, variant) == seq![o]
            &&& o.phase == OpPhase::DbWritten
            &&& failed.link_obstacle is None
            &&& failed.store matches Some(s) ==> s.revision < u64::MAX
        }),
    ensures
        ({
            let first = request_for(d, variant, uid, id, ch);
            let mended = Disk { obstacle: None, ..first.disk };
            let retry = request_for(mended, variant, uid, id, later);
            &&& d.obstacle is Some
            &&& is_broken_off(d, first, source_uid, uid, id, o, d.obstacle->0)
            &&& is_made_up_for(mended, retry, variant, source_uid, uid, id, o)
        }),
{
    let error = lemma_broken_off(d, variant, source_uid, uid, id, ch, o);
    let failed = request_for(d, variant, uid, id, ch).disk;
    let mended = Disk { obstacle: None, ..failed };
    let input = input_for(mended, variant, source_uid, uid, id);
    assert(body_of(mended, id) == body_of(failed, id));
    assert(body_of(mended, o.target.session_id) == body_of(failed, o.target.session_id));
    lemma_unmapped_is_recovered(mended, input, o, later);
    lemma_retry(mended, variant, source_uid, uid, id, later, o);
}

/// A request that failed at the links is made up for by the same request, once nothing keeps the
/// links from being written.
pub proof fn law_failed_commit_is_made_up_for(
    d: Disk,
    variant: WbVariant,
    source_uid: Seq<char>,
    uid: Seq<char>,
    id: Seq<char>,
    ch: Chance,
    later: Chance,
    o: OperationView,
)
    requires
        may_copy(d, variant, source_uid, uid, ch),
        ({
            let failed = request_for(d, variant, uid, id, ch).disk;
            &&& session_link::pending(failed.records, variant) == seq![o]
            &&& o.phase == OpPhase::MappingWritten
            &&& failed.store matches Some(s) ==> s.revision < u64::MAX
        }),
    ensures
        ({
            let first = request_for(d, variant, uid, id, ch);
            let mended = Disk { link_obstacle: None, ..first.disk };
            let retry = request_for(mended, variant, uid, id, later);
            &&& d.link_obstacle is Some
            &&& is_broken_off(d, first, source_uid, uid, id, o, d.link_obstacle->0)
            &&& is_made_up_for(mended, retry, variant, source_uid, uid, id, o)
        }),
{
    let error = lemma_broken_off(d, variant, source_uid, uid, id, ch, o);
    let failed = request_for(d, variant, uid, id, ch).disk;
    let mended = Disk { link_obstacle: None, ..failed };
    let input = input_for(mended, variant, source_uid, uid, id);
    assert(body_of(mended, id) == body_of(failed, id));
    assert(body_of(mended, o.target.session_id) == body_of(failed, o.target.session_id));
    lemma_unlinked_is_recovered(mended, input, o, later);
    lemma_retry(mended, variant, source_uid, uid, id, later, o);
}

/// The copy of the record stands in full: the source and the copy, each its user's, with the body
/// that the record expects, mapped, and in the links.
pub open spec fn is_whole(
    d: Disk,
    source_uid: Seq<char>,
    uid: Seq<char>,
    id: Seq<char>,
    o: OperationView,
) -> bool {
    let new_id = o.target.session_id;
    &&& o.source.uid == source_uid
    &&& o.source.session_id == id
    &&& o.target.uid == uid
    &&& body_of(d, id) is Ready
    &&& owner_of(d, id) == Some(source_uid)
    &&& body_of(d, new_id) is Ready
    &&& body_of(d, new_id)->Ready_0.total_digest == o.expected_content_digest
    &&& owner_of(d, new_id) == Some(uid)
    &&& is_mapped(d, o)
    &&& session_link::links_complaint(store_of(d), o) is None
    &&& d.store matches Some(s) && session_link::counterpart(
        s,
        o.variant,
        source_uid,
        id,
        uid,
    ) == Some(new_id)
}

/// A copy of which only the end was not put down is made up for by the same request: its record
/// is completed, and the links are not written again.
pub proof fn law_unfinished_record_is_made_up_for(
    d: Disk,
    variant: WbVariant,
    source_uid: Seq<char>,
    uid: Seq<char>,
    id: Seq<char>,
    ch: Chance,
    o: OperationView,
)
    requires
        may_request(d, variant, source_uid, uid),
        session_link::pending(d.records, variant) == seq![o],
        is_alone(d.records, variant, o.operation_id),
        o.variant == variant,
        o.phase == OpPhase::LinksCommitted,
        is_whole(d, source_uid, uid, id, o),
    ensures
        ({
            let retry = request_for(d, variant, uid, id, ch);
            &&& is_made_up_for(d, retry, variant, source_uid, uid, id, o)
            &&& retry.disk == Disk { records: retry.disk.records, ..d }
        }),
{
    let input = input_for(d, variant, source_uid, uid, id);
    lemma_whole_is_recovered(d, input, o, ch);
    lemma_retry(d, variant, source_uid, uid, id, ch, o);
}

} // verus!
