//! From the lines that tell of refusals to the refusals themselves: a refusal is written several
//! times, by the client and by its SDK, and counts once.

use vstd::prelude::*;

use crate::limits::Hit;
use crate::limits::HitView;
use crate::order;
use crate::order::Ranked;
use crate::text;

verus! {

/// The distance, in milliseconds, within which two writings of one reset are one event.
pub const MERGE_WINDOW_MS: i64 = 15_000;

/// One refusal.
#[derive(Debug, PartialEq, Eq)]
pub struct Event {
    pub session_id: Option<String>,
    pub model: Option<String>,
    pub reset_at: i64,
    pub first_seen_at: i64,
    pub hit_count: u32,
}

#[verifier::ext_equal]
pub struct EventView {
    pub session_id: Option<Seq<char>>,
    pub model: Option<Seq<char>>,
    pub reset_at: i64,
    pub first_seen_at: i64,
    pub hit_count: nat,
}

impl Event {
    pub open spec fn view(&self) -> EventView {
        EventView {
            session_id: text::opt_text(self.session_id),
            model: text::opt_text(self.model),
            reset_at: self.reset_at,
            first_seen_at: self.first_seen_at,
            hit_count: self.hit_count as nat,
        }
    }

    /// Takes in another writing of the same refusal: what is missing is filled in, the earlier
    /// time stays, and the lines add up.
    pub fn merge(&mut self, other: Event)
        requires
            old(self).hit_count + other.hit_count <= u32::MAX,
        ensures
            final(self)@ == merged(old(self)@, other@),
    {
        if self.model.is_none() {
            self.model = other.model;
        }
        if self.session_id.is_none() {
            self.session_id = other.session_id;
        }
        if other.first_seen_at < self.first_seen_at {
            self.first_seen_at = other.first_seen_at;
        }
        self.hit_count = self.hit_count + other.hit_count;
    }
}

/// One event made of two writings of it.
pub open spec fn merged(a: EventView, b: EventView) -> EventView {
    EventView {
        session_id: if a.session_id is Some {
            a.session_id
        } else {
            b.session_id
        },
        model: if a.model is Some {
            a.model
        } else {
            b.model
        },
        reset_at: a.reset_at,
        first_seen_at: if b.first_seen_at < a.first_seen_at {
            b.first_seen_at
        } else {
            a.first_seen_at
        },
        hit_count: a.hit_count + b.hit_count,
    }
}

/// The event that one line tells of.
pub open spec fn event_of(hit: HitView) -> EventView {
    EventView {
        session_id: hit.session_id,
        model: hit.model,
        reset_at: hit.reset_at,
        first_seen_at: hit.occurred_at,
        hit_count: 1,
    }
}

/// The number of lines that the events stand for.
pub open spec fn total_hits(events: Seq<EventView>) -> nat
    decreases events.len(),
{
    if events.len() == 0 {
        0
    } else {
        total_hits(events.drop_last()) + events.last().hit_count
    }
}

// ---------------------------------------------------------------------------
// Grouping by session and reset
// ---------------------------------------------------------------------------

pub open spec fn same_group(a: EventView, b: EventView) -> bool {
    a.session_id == b.session_id && a.reset_at == b.reset_at
}

/// The first position at or after `from` of an event with the session and reset of `event`.
pub open spec fn group_from(groups: Seq<EventView>, event: EventView, from: int) -> Option<int>
    decreases groups.len() - from,
{
    if from < 0 || from >= groups.len() {
        None
    } else if same_group(groups[from], event) {
        Some(from)
    } else {
        group_from(groups, event, from + 1)
    }
}

/// The groups with one more event: taken in by its group, or a group of its own.
pub open spec fn group_with(groups: Seq<EventView>, event: EventView) -> Seq<EventView> {
    match group_from(groups, event, 0) {
        Some(i) => groups.update(i, merged(groups[i], event)),
        None => groups.push(event),
    }
}

/// The lines grouped by session and reset.
pub open spec fn grouped(hits: Seq<HitView>) -> Seq<EventView>
    decreases hits.len(),
{
    if hits.len() == 0 {
        seq![]
    } else {
        group_with(grouped(hits.drop_last()), event_of(hits.last()))
    }
}

proof fn lemma_group_from(groups: Seq<EventView>, event: EventView, from: int)
    requires
        0 <= from,
    ensures
        group_from(groups, event, from) matches Some(i) ==> from <= i < groups.len() && same_group(
            groups[i],
            event,
        ),
        group_from(groups, event, from) is None ==> forall|j: int|
            from <= j < groups.len() ==> !same_group(#[trigger] groups[j], event),
    decreases groups.len() - from,
{
    if from < groups.len() && !same_group(groups[from], event) {
        lemma_group_from(groups, event, from + 1);
    }
}

proof fn lemma_total_update(events: Seq<EventView>, i: int, e: EventView)
    requires
        0 <= i < events.len(),
    ensures
        total_hits(events.update(i, e)) == total_hits(events) - events[i].hit_count + e.hit_count,
        events[i].hit_count <= total_hits(events),
    decreases events.len(),
{
    if i == events.len() - 1 {
        assert(events.update(i, e).drop_last() =~= events.drop_last());
    } else {
        assert(events.update(i, e).drop_last() =~= events.drop_last().update(i, e));
        lemma_total_update(events.drop_last(), i, e);
    }
}

proof fn lemma_total_push(events: Seq<EventView>, e: EventView)
    ensures
        total_hits(events.push(e)) == total_hits(events) + e.hit_count,
{
    assert(events.push(e).drop_last() =~= events);
}

proof fn lemma_group_total(groups: Seq<EventView>, event: EventView)
    ensures
        total_hits(group_with(groups, event)) == total_hits(groups) + event.hit_count,
{
    lemma_group_from(groups, event, 0);
    match group_from(groups, event, 0) {
        Some(i) => {
            lemma_total_update(groups, i, merged(groups[i], event));
        },
        None => {
            lemma_total_push(groups, event);
        },
    }
}

proof fn lemma_grouped_total(hits: Seq<HitView>)
    ensures
        total_hits(grouped(hits)) == hits.len(),
    decreases hits.len(),
{
    if hits.len() > 0 {
        lemma_grouped_total(hits.drop_last());
        lemma_group_total(grouped(hits.drop_last()), event_of(hits.last()));
    }
}

fn group_index(groups: &Vec<Event>, event: &Event) -> (r: Option<usize>)
    ensures
        match r {
            Some(i) => i < groups@.len() && group_from(order::ranks(groups@), event@, 0) == Some(
                i as int,
            ),
            None => group_from(order::ranks(groups@), event@, 0) is None,
        },
{
    let mut i: usize = 0;
    while i < groups.len()
        invariant
            i <= groups@.len(),
            group_from(order::ranks(groups@), event@, 0) == group_from(
                order::ranks(groups@),
                event@,
                i as int,
            ),
        decreases groups@.len() - i,
    {
        if groups[i].reset_at == event.reset_at && text::same_opt_text(
            &groups[i].session_id,
            &event.session_id,
        ) {
            return Some(i);
        }
        i += 1;
    }
    None
}

// ---------------------------------------------------------------------------
// Order
// ---------------------------------------------------------------------------

/// Events by reset, then by the time they were first seen, then by session.
pub open spec fn event_le(a: EventView, b: EventView) -> bool {
    if a.reset_at != b.reset_at {
        a.reset_at < b.reset_at
    } else if a.first_seen_at != b.first_seen_at {
        a.first_seen_at < b.first_seen_at
    } else if a.session_id != b.session_id {
        text::opt_text_le(a.session_id, b.session_id)
    } else if a.model != b.model {
        text::opt_text_le(a.model, b.model)
    } else {
        a.hit_count <= b.hit_count
    }
}

impl Ranked for Event {
    type Rank = EventView;

    open spec fn rank(&self) -> EventView {
        self@
    }

    open spec fn ordered(a: EventView, b: EventView) -> bool {
        event_le(a, b)
    }

    proof fn lemma_ordered() {
        let leq = |a: EventView, b: EventView| Self::ordered(a, b);
        assert forall|a: EventView, b: EventView| #[trigger] leq(a, b) || #[trigger] leq(b, a) by {
            text::lemma_opt_text_le_total(a.session_id, b.session_id);
            text::lemma_opt_text_le_total(a.model, b.model);
        }
        assert forall|a: EventView, b: EventView| #[trigger]
            leq(a, b) && #[trigger] leq(b, a) implies a == b by {
            text::lemma_opt_text_le_total(a.session_id, b.session_id);
            text::lemma_opt_text_le_total(a.model, b.model);
        }
        assert forall|a: EventView, b: EventView, c: EventView| #[trigger]
            leq(a, b) && #[trigger] leq(b, c) implies leq(a, c) by {
            if text::opt_text_le(a.session_id, b.session_id) && text::opt_text_le(
                b.session_id,
                c.session_id,
            ) {
                text::lemma_opt_text_le_transitive(a.session_id, b.session_id, c.session_id);
            }
            if text::opt_text_le(a.model, b.model) && text::opt_text_le(b.model, c.model) {
                text::lemma_opt_text_le_transitive(a.model, b.model, c.model);
            }
            text::lemma_opt_text_le_total(a.session_id, b.session_id);
            text::lemma_opt_text_le_total(b.session_id, c.session_id);
            text::lemma_opt_text_le_total(a.model, b.model);
            text::lemma_opt_text_le_total(b.model, c.model);
        }
    }

    fn not_after(&self, other: &Self) -> (r: bool) {
        if self.reset_at != other.reset_at {
            self.reset_at < other.reset_at
        } else if self.first_seen_at != other.first_seen_at {
            self.first_seen_at < other.first_seen_at
        } else if !text::same_opt_text(&self.session_id, &other.session_id) {
            text::opt_not_after(&self.session_id, &other.session_id)
        } else if !text::same_opt_text(&self.model, &other.model) {
            text::opt_not_after(&self.model, &other.model)
        } else {
            self.hit_count <= other.hit_count
        }
    }
}

// ---------------------------------------------------------------------------
// Merging neighbours
// ---------------------------------------------------------------------------

/// The event is another writing of the last one: the same reset, and close in time.
pub open spec fn joins_last(events: Seq<EventView>, event: EventView) -> bool {
    events.len() > 0 && events.last().reset_at == event.reset_at && event.first_seen_at
        - events.last().first_seen_at <= MERGE_WINDOW_MS
}

/// The events with one more: taken in by the last, or an event of its own.
pub open spec fn run_with(events: Seq<EventView>, event: EventView) -> Seq<EventView> {
    if joins_last(events, event) {
        events.drop_last().push(merged(events.last(), event))
    } else {
        events.push(event)
    }
}

/// The ordered events with neighbours that are one event merged.
pub open spec fn runs(events: Seq<EventView>) -> Seq<EventView>
    decreases events.len(),
{
    if events.len() == 0 {
        seq![]
    } else {
        run_with(runs(events.drop_last()), events.last())
    }
}

/// The events that the lines stand for: one for each session and reset, and neighbours that
/// are one event merged.
pub open spec fn deduped(hits: Seq<HitView>) -> Seq<EventView> {
    runs(order::ascending::<Event>(grouped(hits)))
}

proof fn lemma_run_total(events: Seq<EventView>, event: EventView)
    ensures
        total_hits(run_with(events, event)) == total_hits(events) + event.hit_count,
        events.len() > 0 ==> events.last().hit_count <= total_hits(events),
{
    if joins_last(events, event) {
        lemma_total_push(events.drop_last(), merged(events.last(), event));
    } else {
        lemma_total_push(events, event);
    }
}

proof fn lemma_runs_total(events: Seq<EventView>)
    ensures
        total_hits(runs(events)) == total_hits(events),
    decreases events.len(),
{
    if events.len() > 0 {
        lemma_runs_total(events.drop_last());
        lemma_run_total(runs(events.drop_last()), events.last());
    }
}

proof fn lemma_total_is_fold(events: Seq<EventView>)
    ensures
        total_hits(events) == events.fold_left(0nat, |n: nat, e: EventView| n + e.hit_count),
    decreases events.len(),
{
    if events.len() > 0 {
        lemma_total_is_fold(events.drop_last());
    }
}

proof fn lemma_ascending_total(events: Seq<EventView>)
    ensures
        total_hits(order::ascending::<Event>(events)) == total_hits(events),
{
    let leq = |a: EventView, b: EventView| Event::ordered(a, b);
    let add = |n: nat, e: EventView| n + e.hit_count;
    Event::lemma_ordered();
    events.lemma_sort_by_ensures(leq);
    let sorted = order::ascending::<Event>(events);
    lemma_total_is_fold(events);
    lemma_total_is_fold(sorted);
    vstd::seq_lib::lemma_fold_left_permutation(events, sorted, add, 0nat);
}

proof fn lemma_total_take(events: Seq<EventView>, n: int)
    requires
        0 <= n <= events.len(),
    ensures
        total_hits(events.take(n)) <= total_hits(events),
    decreases events.len(),
{
    if n < events.len() {
        assert(events.drop_last().take(n) =~= events.take(n));
        lemma_total_take(events.drop_last(), n);
    } else {
        assert(events.take(n) =~= events);
    }
}

/// The events that the lines stand for.
pub fn dedupe(hits: Vec<Hit>) -> (r: Vec<Event>)
    requires
        hits@.len() <= u32::MAX,
    ensures
        order::ranks(r@) == deduped(crate::limits::hit_views(hits@)),
{
    let ghost views = crate::limits::hit_views(hits@);
    let mut groups: Vec<Event> = Vec::new();
    let mut i: usize = 0;
    assert(order::ranks(groups@) =~= seq![]);
    while i < hits.len()
        invariant
            i <= hits@.len(),
            hits@.len() <= u32::MAX,
            views == crate::limits::hit_views(hits@),
            order::ranks(groups@) == grouped(views.take(i as int)),
        decreases hits@.len() - i,
    {
        let ghost before = order::ranks(groups@);
        let event = Event {
            session_id: hits[i].session_id.clone(),
            model: hits[i].model.clone(),
            reset_at: hits[i].reset_at,
            first_seen_at: hits[i].occurred_at,
            hit_count: 1,
        };
        let ghost e = event@;
        proof {
            assert(views.take(i + 1).drop_last() =~= views.take(i as int));
            assert(e == event_of(views.take(i + 1).last()));
            lemma_grouped_total(views.take(i as int));
        }
        match group_index(&groups, &event) {
            Some(k) => {
                proof {
                    lemma_total_update(before, k as int, e);
                }
                groups[k].merge(event);
                assert(order::ranks(groups@) =~= before.update(k as int, merged(before[k as int], e)));
            },
            None => {
                groups.push(event);
                assert(order::ranks(groups@) =~= before.push(e));
            },
        }
        i += 1;
    }
    assert(views.take(hits@.len() as int) =~= views);
    proof {
        lemma_grouped_total(views);
        lemma_ascending_total(grouped(views));
    }
    merge_neighbours(order::sort(groups))
}

fn merge_neighbours(sorted: Vec<Event>) -> (r: Vec<Event>)
    requires
        total_hits(order::ranks(sorted@)) <= u32::MAX,
    ensures
        order::ranks(r@) == runs(order::ranks(sorted@)),
{
    let ghost all = order::ranks(sorted@);
    let mut rest = sorted;
    let mut out: Vec<Event> = Vec::new();
    let ghost mut n: int = 0;
    assert(order::ranks(out@) =~= seq![]);
    while rest.len() > 0
        invariant
            0 <= n <= all.len(),
            order::ranks(rest@) == all.skip(n),
            total_hits(all) <= u32::MAX,
            order::ranks(out@) == runs(all.take(n)),
        decreases rest@.len(),
    {
        let ghost before = order::ranks(out@);
        let ghost rest_before = rest@;
        let event = rest.remove(0);
        let ghost e = event@;
        proof {
            assert(order::ranks(rest_before).len() == rest_before.len());
            assert(order::ranks(rest_before)[0] == e);
            assert(all.take(n + 1).drop_last() =~= all.take(n));
            assert(all.take(n + 1).last() == e);
            assert forall|j: int| 0 <= j < rest@.len() implies #[trigger] order::ranks(rest@)[j]
                == all.skip(n + 1)[j] by {
                assert(order::ranks(rest_before)[j + 1] == all.skip(n)[j + 1]);
            }
            assert(order::ranks(rest@) =~= all.skip(n + 1));
            lemma_runs_total(all.take(n));
            lemma_run_total(before, e);
            lemma_total_take(all, n + 1);
            lemma_runs_total(all.take(n + 1));
            n = n + 1;
        }
        let k: usize = out.len();
        if k > 0 && out[k - 1].reset_at == event.reset_at && event.first_seen_at as i128 - out[k
            - 1].first_seen_at as i128 <= MERGE_WINDOW_MS as i128 {
            assert(before.last() == out@[k - 1]@);
            out[k - 1].merge(event);
            assert(order::ranks(out@) =~= before.drop_last().push(merged(before.last(), e)));
        } else {
            assert(k > 0 ==> before.last() == out@[k - 1]@);
            out.push(event);
            assert(order::ranks(out@) =~= before.push(e));
        }
    }
    assert(all.take(n) =~= all);
    out
}

// ---------------------------------------------------------------------------
// Laws
// ---------------------------------------------------------------------------

/// No line is lost and none counts twice: the events together stand for as many lines as there
/// were.
pub proof fn law_dedupe_keeps_every_hit(hits: Seq<HitView>)
    ensures
        total_hits(deduped(hits)) == hits.len(),
{
    lemma_grouped_total(hits);
    lemma_ascending_total(grouped(hits));
    lemma_runs_total(order::ascending::<Event>(grouped(hits)));
}

/// `a` and `b` are two events: the second has a later reset, or it was first seen later by more
/// than the window.
pub open spec fn apart(a: EventView, b: EventView) -> bool {
    a.reset_at < b.reset_at || (a.reset_at == b.reset_at && b.first_seen_at - a.first_seen_at
        > MERGE_WINDOW_MS)
}

proof fn lemma_runs_apart(events: Seq<EventView>)
    requires
        vstd::relations::sorted_by(events, |a: EventView, b: EventView| Event::ordered(a, b)),
    ensures
        events.len() > 0 ==> runs(events).len() > 0 && runs(events).last().reset_at
            == events.last().reset_at && runs(events).last().first_seen_at
            <= events.last().first_seen_at,
        forall|i: int, j: int|
            0 <= i < j < runs(events).len() ==> apart(
                #[trigger] runs(events)[i],
                #[trigger] runs(events)[j],
            ),
    decreases events.len(),
{
    if events.len() > 0 {
        let front = events.drop_last();
        let leq = |a: EventView, b: EventView| Event::ordered(a, b);
        assert forall|i: int, j: int| 0 <= i < j < front.len() implies #[trigger] leq(
            front[i],
            front[j],
        ) by {
            assert(leq(events[i], events[j]));
        }
        lemma_runs_apart(front);
        if front.len() > 0 {
            assert(leq(events[events.len() - 2], events[events.len() - 1]));
        }
        let r = runs(front);
        let all = runs(events);
        assert forall|i: int, j: int| 0 <= i < j < all.len() implies apart(
            #[trigger] all[i],
            #[trigger] all[j],
        ) by {
            if j < r.len() {
                assert(apart(r[i], r[j]));
            } else if i < r.len() - 1 {
                assert(apart(r[i], r[r.len() - 1]));
            }
        }
    }
}

/// What is left after merging is told apart: no two events with the same reset were first seen
/// within the window, and the events stand in the order of their resets.
pub proof fn law_deduped_events_are_apart(hits: Seq<HitView>, i: int, j: int)
    requires
        0 <= i < j < deduped(hits).len(),
    ensures
        apart(deduped(hits)[i], deduped(hits)[j]),
{
    Event::lemma_ordered();
    grouped(hits).lemma_sort_by_ensures(|a: EventView, b: EventView| Event::ordered(a, b));
    lemma_runs_apart(order::ascending::<Event>(grouped(hits)));
}

// ---------------------------------------------------------------------------
// The order of the lines
// ---------------------------------------------------------------------------

/// The event, with no more of its model than whether it is known.
pub open spec fn outline(e: EventView) -> EventView {
    EventView {
        model: if e.model is Some {
            Some(seq![])
        } else {
            None
        },
        ..e
    }
}

pub open spec fn outlines(events: Seq<EventView>) -> Seq<EventView> {
    events.map_values(|e: EventView| outline(e))
}

spec fn key_of(e: EventView) -> (Option<Seq<char>>, i64) {
    (e.session_id, e.reset_at)
}

type Groups = Map<(Option<Seq<char>>, i64), EventView>;

spec fn table_with(groups: Groups, hit: HitView) -> Groups {
    let e = outline(event_of(hit));
    if groups.contains_key(key_of(e)) {
        groups.insert(key_of(e), merged(groups[key_of(e)], e))
    } else {
        groups.insert(key_of(e), e)
    }
}

/// The outlines of the groups, by session and reset.
spec fn group_table(hits: Seq<HitView>) -> Groups {
    hits.fold_left(Map::empty(), |groups: Groups, hit: HitView| table_with(groups, hit))
}

proof fn lemma_table_commutes(groups: Groups, a: HitView, b: HitView)
    ensures
        table_with(table_with(groups, a), b) == table_with(table_with(groups, b), a),
{
    let x = outline(event_of(a));
    let y = outline(event_of(b));
    let one = table_with(table_with(groups, a), b);
    let two = table_with(table_with(groups, b), a);
    if key_of(x) == key_of(y) {
        assert(one[key_of(x)] =~= two[key_of(x)]);
    }
    assert(one =~= two);
}

proof fn lemma_table_of_permutation(hits: Seq<HitView>, other: Seq<HitView>)
    requires
        hits.to_multiset() == other.to_multiset(),
    ensures
        group_table(hits) == group_table(other),
{
    let f = |groups: Groups, hit: HitView| table_with(groups, hit);
    assert forall|x: HitView, y: HitView, v: Groups| #[trigger] f(f(v, x), y) == f(f(v, y), x) by {
        lemma_table_commutes(v, x, y);
    }
    vstd::seq_lib::lemma_fold_left_permutation(hits, other, f, Map::empty());
}

/// The groups are those of the table, each once.
spec fn is_listed(groups: Seq<EventView>, table: Groups) -> bool {
    &&& forall|i: int, j: int|
        0 <= i < j < groups.len() ==> key_of(#[trigger] groups[i]) != key_of(#[trigger] groups[j])
    &&& forall|i: int|
        0 <= i < groups.len() ==> table.contains_key(key_of(#[trigger] groups[i]))
            && table[key_of(groups[i])] == outline(groups[i])
    &&& forall|k: (Option<Seq<char>>, i64)| #[trigger]
        table.contains_key(k) ==> exists|i: int|
            0 <= i < groups.len() && key_of(#[trigger] groups[i]) == k
}

proof fn lemma_groups_are_listed(hits: Seq<HitView>)
    ensures
        is_listed(grouped(hits), group_table(hits)),
    decreases hits.len(),
{
    if hits.len() > 0 {
        let front = hits.drop_last();
        lemma_groups_are_listed(front);
        let groups = grouped(front);
        let table = group_table(front);
        let e = event_of(hits.last());
        lemma_group_from(groups, e, 0);
        let all = grouped(hits);
        let new = group_table(hits);
        assert(new == table_with(table, hits.last()));
        match group_from(groups, e, 0) {
            Some(i) => {
                assert(key_of(groups[i]) == key_of(e));
                assert(outline(merged(groups[i], e)) =~= merged(outline(groups[i]), outline(e)));
                assert forall|k: (Option<Seq<char>>, i64)| #[trigger]
                    new.contains_key(k) implies exists|j: int|
                    0 <= j < all.len() && key_of(#[trigger] all[j]) == k by {
                    assert(table.contains_key(k));
                    let j = choose|j: int| 0 <= j < groups.len() && key_of(#[trigger] groups[j]) == k;
                    assert(key_of(all[j]) == k);
                }
            },
            None => {
                assert forall|j: int| 0 <= j < groups.len() implies key_of(#[trigger] groups[j])
                    != key_of(e) by {
                    assert(!same_group(groups[j], e));
                }
                assert(!table.contains_key(key_of(e)));
                assert forall|k: (Option<Seq<char>>, i64)| #[trigger]
                    new.contains_key(k) implies exists|j: int|
                    0 <= j < all.len() && key_of(#[trigger] all[j]) == k by {
                    if k == key_of(e) {
                        assert(key_of(all[groups.len() as int]) == k);
                    } else {
                        assert(table.contains_key(k));
                        let j = choose|j: int|
                            0 <= j < groups.len() && key_of(#[trigger] groups[j]) == k;
                        assert(key_of(all[j]) == k);
                    }
                }
            },
        }
    }
}

proof fn lemma_listed_in_another_order(a: Seq<EventView>, b: Seq<EventView>, table: Groups)
    requires
        is_listed(a, table),
        a.to_multiset() == b.to_multiset(),
    ensures
        is_listed(b, table),
{
    broadcast use vstd::seq_lib::group_to_multiset_ensures;

    assert forall|i: int, j: int| 0 <= i < j < a.len() implies a[i] != a[j] by {
        assert(key_of(a[i]) != key_of(a[j]));
    }
    a.lemma_multiset_has_no_duplicates();
    b.lemma_multiset_has_no_duplicates_conv();
    assert forall|i: int| 0 <= i < b.len() implies a.contains(#[trigger] b[i]) by {
        assert(b.contains(b[i]));
        assert(b.to_multiset().count(b[i]) > 0);
    }
    assert forall|i: int, j: int| 0 <= i < j < b.len() implies key_of(#[trigger] b[i]) != key_of(
        #[trigger] b[j],
    ) by {
        let x = choose|x: int| 0 <= x < a.len() && a[x] == b[i];
        let y = choose|y: int| 0 <= y < a.len() && a[y] == b[j];
        assert(b[i] != b[j]);
        assert(x != y);
        if x < y {
            assert(key_of(a[x]) != key_of(a[y]));
        } else {
            assert(key_of(a[y]) != key_of(a[x]));
        }
    }
    assert forall|i: int| 0 <= i < b.len() implies table.contains_key(key_of(#[trigger] b[i]))
        && table[key_of(b[i])] == outline(b[i]) by {
        let x = choose|x: int| 0 <= x < a.len() && a[x] == b[i];
        assert(table.contains_key(key_of(a[x])));
    }
    assert forall|k: (Option<Seq<char>>, i64)| #[trigger] table.contains_key(k) implies exists|
        i: int,
    | 0 <= i < b.len() && key_of(#[trigger] b[i]) == k by {
        let x = choose|x: int| 0 <= x < a.len() && key_of(#[trigger] a[x]) == k;
        assert(a.contains(a[x]));
        assert(a.to_multiset().count(a[x]) > 0);
        assert(b.contains(a[x]));
        let i = choose|i: int| 0 <= i < b.len() && b[i] == a[x];
        assert(key_of(b[i]) == k);
    }
}

proof fn lemma_outlines_of_listed(a: Seq<EventView>, b: Seq<EventView>, table: Groups)
    requires
        is_listed(a, table),
        is_listed(b, table),
    ensures
        outlines(a).to_multiset() == outlines(b).to_multiset(),
{
    broadcast use vstd::seq_lib::group_to_multiset_ensures;

    lemma_outlines_of_listed_once(a, b, table);
    lemma_outlines_of_listed_once(b, a, table);
    assert(outlines(a).to_multiset() =~= outlines(b).to_multiset()) by {
        assert forall|v: EventView|
            outlines(a).to_multiset().count(v) == outlines(b).to_multiset().count(v) by {
            if outlines(a).contains(v) {
                assert(outlines(a).to_multiset().contains(v));
                assert(outlines(b).to_multiset().contains(v));
            } else {
                assert(!outlines(b).contains(v));
            }
        }
    }
}

proof fn lemma_outlines_of_listed_once(a: Seq<EventView>, b: Seq<EventView>, table: Groups)
    requires
        is_listed(a, table),
        is_listed(b, table),
    ensures
        forall|v: EventView| outlines(a).contains(v) ==> outlines(b).contains(v),
        forall|v: EventView|
            outlines(a).to_multiset().contains(v) ==> outlines(a).to_multiset().count(v) == 1,
{
    assert forall|i: int, j: int| 0 <= i < j < a.len() implies outlines(a)[i] != outlines(a)[j] by {
        assert(key_of(a[i]) != key_of(a[j]));
        assert(key_of(outlines(a)[i]) == key_of(a[i]));
        assert(key_of(outlines(a)[j]) == key_of(a[j]));
    }
    outlines(a).lemma_multiset_has_no_duplicates();
    assert forall|v: EventView| outlines(a).contains(v) implies outlines(b).contains(v) by {
        let i = choose|i: int| 0 <= i < outlines(a).len() && outlines(a)[i] == v;
        assert(table.contains_key(key_of(a[i])));
        let j = choose|j: int| 0 <= j < b.len() && key_of(#[trigger] b[j]) == key_of(a[i]);
        assert(outlines(b)[j] == v);
    }
}

proof fn lemma_outlines_sorted(events: Seq<EventView>, table: Groups)
    requires
        is_listed(events, table),
        vstd::relations::sorted_by(events, |a: EventView, b: EventView| Event::ordered(a, b)),
    ensures
        vstd::relations::sorted_by(
            outlines(events),
            |a: EventView, b: EventView| Event::ordered(a, b),
        ),
{
    let leq = |a: EventView, b: EventView| Event::ordered(a, b);
    let all = outlines(events);
    assert forall|i: int, j: int| 0 <= i < j < all.len() implies #[trigger] leq(all[i], all[j]) by {
        assert(leq(events[i], events[j]));
        assert(key_of(events[i]) != key_of(events[j]));
    }
}

proof fn lemma_runs_of_outlines(events: Seq<EventView>)
    ensures
        runs(outlines(events)) == outlines(runs(events)),
    decreases events.len(),
{
    if events.len() == 0 {
        assert(outlines(events) =~= seq![]);
        assert(outlines(runs(events)) =~= seq![]);
    } else {
        let front = events.drop_last();
        let e = events.last();
        lemma_runs_of_outlines(front);
        assert(outlines(events).drop_last() =~= outlines(front));
        assert(outlines(events).last() == outline(e));
        let r = runs(front);
        if r.len() > 0 {
            assert(outlines(r).last() == outline(r.last()));
            assert(outline(merged(r.last(), e)) =~= merged(outline(r.last()), outline(e)));
        }
        assert(runs(outlines(events)) =~= outlines(runs(events)));
    }
}

/// The order of the lines does not matter: in another order they stand for the same events. (Of
/// several models that they give for one event, which one is kept depends on it.)
pub proof fn law_order_of_lines_does_not_matter(hits: Seq<HitView>, other: Seq<HitView>)
    requires
        hits.to_multiset() == other.to_multiset(),
    ensures
        outlines(deduped(hits)) == outlines(deduped(other)),
{
    let leq = |a: EventView, b: EventView| Event::ordered(a, b);
    let a = order::ascending::<Event>(grouped(hits));
    let b = order::ascending::<Event>(grouped(other));
    let table = group_table(hits);
    Event::lemma_ordered();
    grouped(hits).lemma_sort_by_ensures(leq);
    grouped(other).lemma_sort_by_ensures(leq);
    lemma_table_of_permutation(hits, other);
    lemma_groups_are_listed(hits);
    lemma_groups_are_listed(other);
    lemma_listed_in_another_order(grouped(hits), a, table);
    lemma_listed_in_another_order(grouped(other), b, table);
    lemma_outlines_of_listed(a, b, table);
    lemma_outlines_sorted(a, table);
    lemma_outlines_sorted(b, table);
    vstd::seq_lib::lemma_sorted_unique(outlines(a), outlines(b), leq);
    lemma_runs_of_outlines(a);
    lemma_runs_of_outlines(b);
}

/// Two writings of a refusal make one event: with the session and the model of the first, or of
/// the second where the first has none, seen first at the earlier time, and with all lines
/// counted.
pub proof fn law_two_writings_make_one_event(a: EventView, b: EventView)
    ensures
        merged(a, b).reset_at == a.reset_at,
        merged(a, b).hit_count == a.hit_count + b.hit_count,
        merged(a, b).first_seen_at <= a.first_seen_at,
        merged(a, b).first_seen_at <= b.first_seen_at,
        merged(a, b).first_seen_at == a.first_seen_at || merged(a, b).first_seen_at
            == b.first_seen_at,
        a.session_id is Some ==> merged(a, b).session_id == a.session_id,
        a.session_id is None ==> merged(a, b).session_id == b.session_id,
        a.model is Some ==> merged(a, b).model == a.model,
        a.model is None ==> merged(a, b).model == b.model,
{
}

/// The event takes in `x`: it has the same reset, was seen no later, and lacks neither a session
/// nor a model that `x` has.
pub open spec fn takes_in(e: EventView, x: EventView) -> bool {
    &&& e.reset_at == x.reset_at
    &&& e.first_seen_at <= x.first_seen_at
    &&& x.session_id is Some ==> e.session_id is Some
    &&& x.model is Some ==> e.model is Some
}

/// Some event takes in `x`.
pub open spec fn taken_in(events: Seq<EventView>, x: EventView) -> bool {
    exists|i: int| 0 <= i < events.len() && takes_in(#[trigger] events[i], x)
}

/// Some event has the reset of `x` and was seen first no later than `x`, within the window.
pub open spec fn seen_near(events: Seq<EventView>, x: EventView) -> bool {
    exists|i: int|
        0 <= i < events.len() && (#[trigger] events[i]).reset_at == x.reset_at
            && events[i].first_seen_at <= x.first_seen_at <= events[i].first_seen_at + 15_000
}

/// What the event says is what lines say: with its reset, some line was written when it was first
/// seen, some line is of its session, and some line is of its model.
pub open spec fn is_told(e: EventView, hits: Seq<HitView>) -> bool {
    &&& exists|i: int|
        0 <= i < hits.len() && (#[trigger] hits[i]).reset_at == e.reset_at && hits[i].occurred_at
            == e.first_seen_at
    &&& e.session_id is Some ==> exists|i: int|
        0 <= i < hits.len() && (#[trigger] hits[i]).reset_at == e.reset_at && hits[i].session_id
            == e.session_id
    &&& e.model is Some ==> exists|i: int|
        0 <= i < hits.len() && (#[trigger] hits[i]).reset_at == e.reset_at && hits[i].model
            == e.model
}

/// No event says what no line says.
pub proof fn law_events_are_told_by_lines(hits: Seq<HitView>, k: int)
    requires
        0 <= k < deduped(hits).len(),
    ensures
        is_told(deduped(hits)[k], hits),
{
    let groups = grouped(hits);
    lemma_groups_are_told(hits);
    lemma_ascending_holds(groups);
    let sorted = order::ascending::<Event>(groups);
    assert forall|i: int| 0 <= i < sorted.len() implies is_told(#[trigger] sorted[i], hits) by {
        assert(sorted.contains(sorted[i]));
        assert(groups.contains(sorted[i]));
        let m = choose|m: int| 0 <= m < groups.len() && groups[m] == sorted[i];
        assert(is_told(groups[m], hits));
    }
    lemma_runs_are_told(sorted, hits);
}

/// Every line belongs to an event: one with its reset that was seen no later than the line was
/// written, and that has a session and a model wherever the line has one.
pub proof fn law_every_line_belongs_to_an_event(hits: Seq<HitView>, k: int)
    requires
        0 <= k < hits.len(),
    ensures
        exists|i: int|
            0 <= i < deduped(hits).len() && (#[trigger] deduped(hits)[i]).reset_at
                == hits[k].reset_at && deduped(hits)[i].first_seen_at <= hits[k].occurred_at && (
            hits[k].session_id is Some ==> deduped(hits)[i].session_id is Some) && (hits[k].model
                is Some ==> deduped(hits)[i].model is Some),
{
    let groups = grouped(hits);
    let sorted = order::ascending::<Event>(groups);
    lemma_lines_are_grouped(hits, k);
    lemma_ascending_holds(groups);
    let m = choose|m: int|
        0 <= m < groups.len() && (#[trigger] groups[m]).session_id == hits[k].session_id && takes_in(
            groups[m],
            event_of(hits[k]),
        );
    assert(sorted.contains(groups[m]));
    let p = choose|p: int| 0 <= p < sorted.len() && sorted[p] == groups[m];
    lemma_runs_take_in(sorted, p);
    let q = choose|q: int| 0 <= q < runs(sorted).len() && takes_in(#[trigger] runs(sorted)[q], sorted[p]);
    assert(deduped(hits)[q].reset_at == hits[k].reset_at);
}

/// The first line of a session and a reset was written within fifteen seconds after the event that
/// it belongs to was first seen: events are not merged over a greater distance.
pub proof fn law_only_close_events_are_merged(hits: Seq<HitView>, k: int)
    requires
        0 <= k < hits.len(),
        forall|j: int|
            0 <= j < hits.len() && (#[trigger] hits[j]).session_id == hits[k].session_id
                && hits[j].reset_at == hits[k].reset_at ==> hits[k].occurred_at
                <= hits[j].occurred_at,
    ensures
        exists|i: int|
            0 <= i < deduped(hits).len() && (#[trigger] deduped(hits)[i]).reset_at
                == hits[k].reset_at && deduped(hits)[i].first_seen_at <= hits[k].occurred_at
                <= deduped(hits)[i].first_seen_at + 15_000,
{
    let groups = grouped(hits);
    let sorted = order::ascending::<Event>(groups);
    lemma_lines_are_grouped(hits, k);
    lemma_groups_are_told(hits);
    lemma_ascending_holds(groups);
    let m = choose|m: int|
        0 <= m < groups.len() && (#[trigger] groups[m]).session_id == hits[k].session_id && takes_in(
            groups[m],
            event_of(hits[k]),
        );
    assert(exists|i: int|
        0 <= i < hits.len() && (#[trigger] hits[i]).reset_at == groups[m].reset_at
            && hits[i].session_id == groups[m].session_id && hits[i].occurred_at
            == groups[m].first_seen_at);
    assert(groups[m].first_seen_at == hits[k].occurred_at);
    assert(sorted.contains(groups[m]));
    let p = choose|p: int| 0 <= p < sorted.len() && sorted[p] == groups[m];
    lemma_runs_near(sorted);
    assert(seen_near(runs(sorted), sorted[p]));
    let events = runs(sorted);
    let q = choose|q: int|
        0 <= q < events.len() && (#[trigger] events[q]).reset_at == sorted[p].reset_at
            && events[q].first_seen_at <= sorted[p].first_seen_at <= events[q].first_seen_at
            + 15_000;
    assert(deduped(hits)[q].reset_at == hits[k].reset_at);
}

/// No two events with the same reset were first seen within fifteen seconds.
pub proof fn law_close_events_are_merged(hits: Seq<HitView>, i: int, j: int)
    requires
        0 <= i < j < deduped(hits).len(),
        deduped(hits)[i].reset_at == deduped(hits)[j].reset_at,
    ensures
        deduped(hits)[j].first_seen_at - deduped(hits)[i].first_seen_at > 15_000,
{
    law_deduped_events_are_apart(hits, i, j);
}

/// All lines of one session and one reset are one event, however far apart they were written.
pub proof fn law_one_event_for_a_session_and_a_reset(hits: Seq<HitView>)
    requires
        hits.len() > 0,
        forall|j: int|
            0 <= j < hits.len() ==> (#[trigger] hits[j]).session_id == hits[0].session_id
                && hits[j].reset_at == hits[0].reset_at,
    ensures
        deduped(hits).len() == 1,
        deduped(hits)[0].session_id == hits[0].session_id,
        deduped(hits)[0].hit_count == hits.len(),
{
    lemma_one_group(hits);
    law_dedupe_keeps_every_hit(hits);
    let groups = grouped(hits);
    lemma_ascending_holds(groups);
    let sorted = order::ascending::<Event>(groups);
    assert(sorted.contains(sorted[0]));
    assert(groups.contains(sorted[0]));
    assert(sorted.drop_last() =~= Seq::<EventView>::empty());
    reveal_with_fuel(runs, 2);
    assert(deduped(hits) =~= seq![groups[0]]);
    assert(deduped(hits).drop_last() =~= Seq::<EventView>::empty());
    reveal_with_fuel(total_hits, 2);
}

proof fn lemma_one_group(hits: Seq<HitView>)
    requires
        hits.len() > 0,
        forall|j: int|
            0 <= j < hits.len() ==> (#[trigger] hits[j]).session_id == hits[0].session_id
                && hits[j].reset_at == hits[0].reset_at,
    ensures
        grouped(hits).len() == 1,
        grouped(hits)[0].session_id == hits[0].session_id,
        grouped(hits)[0].reset_at == hits[0].reset_at,
    decreases hits.len(),
{
    let front = hits.drop_last();
    let e = event_of(hits.last());
    lemma_group_from(grouped(front), e, 0);
    assert(hits.last() == hits[hits.len() - 1]);
    if front.len() > 0 {
        assert forall|j: int| 0 <= j < front.len() implies (#[trigger] front[j]).session_id
            == front[0].session_id && front[j].reset_at == front[0].reset_at by {
            assert(front[j] == hits[j]);
        }
        lemma_one_group(front);
        assert(same_group(grouped(front)[0], e));
    } else {
        assert(grouped(front).len() == 0);
    }
}

proof fn lemma_ascending_holds(events: Seq<EventView>)
    ensures
        order::ascending::<Event>(events).len() == events.len(),
        forall|x: EventView| #[trigger]
            order::ascending::<Event>(events).contains(x) <==> events.contains(x),
        forall|i: int, j: int|
            0 <= i < j < events.len() ==> event_le(
                #[trigger] order::ascending::<Event>(events)[i],
                #[trigger] order::ascending::<Event>(events)[j],
            ),
{
    broadcast use vstd::seq_lib::group_to_multiset_ensures;

    let leq = |a: EventView, b: EventView| Event::ordered(a, b);
    Event::lemma_ordered();
    events.lemma_sort_by_ensures(leq);
    let sorted = order::ascending::<Event>(events);
    assert(sorted.to_multiset() == events.to_multiset());
    assert(sorted.len() == sorted.to_multiset().len());
    assert(events.len() == events.to_multiset().len());
    assert forall|x: EventView| #[trigger] sorted.contains(x) <==> events.contains(x) by {
        assert(sorted.to_multiset().count(x) == events.to_multiset().count(x));
    }
    assert forall|i: int, j: int| 0 <= i < j < events.len() implies event_le(
        #[trigger] sorted[i],
        #[trigger] sorted[j],
    ) by {
        assert(leq(sorted[i], sorted[j]));
    }
}

/// Each group is told by lines, and first seen when a line of its own session was written.
proof fn lemma_groups_are_told(hits: Seq<HitView>)
    ensures
        forall|m: int|
            0 <= m < grouped(hits).len() ==> is_told(#[trigger] grouped(hits)[m], hits) && exists|
                i: int,
            |
                0 <= i < hits.len() && (#[trigger] hits[i]).reset_at == grouped(hits)[m].reset_at
                    && hits[i].session_id == grouped(hits)[m].session_id && hits[i].occurred_at
                    == grouped(hits)[m].first_seen_at,
    decreases hits.len(),
{
    if hits.len() > 0 {
        let front = hits.drop_last();
        let n = hits.len() - 1;
        let e = event_of(hits.last());
        let before = grouped(front);
        let all = grouped(hits);
        lemma_groups_are_told(front);
        lemma_group_from(before, e, 0);
        assert(hits[n] == hits.last());
        assert forall|m: int| 0 <= m < all.len() implies is_told(#[trigger] all[m], hits) && exists|
            i: int,
        |
            0 <= i < hits.len() && (#[trigger] hits[i]).reset_at == all[m].reset_at
                && hits[i].session_id == all[m].session_id && hits[i].occurred_at
                == all[m].first_seen_at by {
            if m < before.len() {
                assert(is_told(before[m], front));
                lemma_told_by_more(before[m], hits);
                let i = choose|i: int|
                    0 <= i < front.len() && (#[trigger] front[i]).reset_at == before[m].reset_at
                        && front[i].session_id == before[m].session_id && front[i].occurred_at
                        == before[m].first_seen_at;
                assert(hits[i] == front[i]);
            }
        }
    }
}

proof fn lemma_told_by_more(e: EventView, hits: Seq<HitView>)
    requires
        hits.len() > 0,
        is_told(e, hits.drop_last()),
    ensures
        is_told(e, hits),
{
    let front = hits.drop_last();
    let i = choose|i: int|
        0 <= i < front.len() && (#[trigger] front[i]).reset_at == e.reset_at && front[i].occurred_at
            == e.first_seen_at;
    assert(hits[i] == front[i]);
    if e.session_id is Some {
        let i = choose|i: int|
            0 <= i < front.len() && (#[trigger] front[i]).reset_at == e.reset_at
                && front[i].session_id == e.session_id;
        assert(hits[i] == front[i]);
    }
    if e.model is Some {
        let i = choose|i: int|
            0 <= i < front.len() && (#[trigger] front[i]).reset_at == e.reset_at && front[i].model
                == e.model;
        assert(hits[i] == front[i]);
    }
}

proof fn lemma_lines_are_grouped(hits: Seq<HitView>, k: int)
    requires
        0 <= k < hits.len(),
    ensures
        exists|m: int|
            0 <= m < grouped(hits).len() && (#[trigger] grouped(hits)[m]).session_id
                == hits[k].session_id && takes_in(grouped(hits)[m], event_of(hits[k])),
    decreases hits.len(),
{
    let front = hits.drop_last();
    let n = hits.len() - 1;
    let e = event_of(hits.last());
    let before = grouped(front);
    let all = grouped(hits);
    lemma_group_from(before, e, 0);
    if k < n {
        lemma_lines_are_grouped(front, k);
        assert(front[k] == hits[k]);
        let m = choose|m: int|
            0 <= m < before.len() && (#[trigger] before[m]).session_id == hits[k].session_id
                && takes_in(before[m], event_of(hits[k]));
        assert(all[m].session_id == hits[k].session_id && takes_in(all[m], event_of(hits[k])));
    } else {
        match group_from(before, e, 0) {
            Some(m) => {
                assert(all[m].session_id == hits[k].session_id && takes_in(all[m], e));
            },
            None => {
                assert(all[before.len() as int] == e);
            },
        }
    }
}

proof fn lemma_runs_are_told(events: Seq<EventView>, hits: Seq<HitView>)
    requires
        forall|i: int| 0 <= i < events.len() ==> is_told(#[trigger] events[i], hits),
    ensures
        forall|i: int| 0 <= i < runs(events).len() ==> is_told(#[trigger] runs(events)[i], hits),
    decreases events.len(),
{
    if events.len() > 0 {
        let front = events.drop_last();
        let x = events.last();
        assert forall|i: int| 0 <= i < front.len() implies is_told(#[trigger] front[i], hits) by {
            assert(front[i] == events[i]);
        }
        lemma_runs_are_told(front, hits);
        assert(x == events[events.len() - 1]);
        let before = runs(front);
        if joins_last(before, x) {
            assert(is_told(before[before.len() - 1], hits));
            assert(is_told(merged(before.last(), x), hits));
        }
    }
}

proof fn lemma_runs_take_in(events: Seq<EventView>, k: int)
    requires
        0 <= k < events.len(),
    ensures
        taken_in(runs(events), events[k]),
    decreases events.len(),
{
    let front = events.drop_last();
    let x = events.last();
    let before = runs(front);
    let all = runs(events);
    let n = before.len() as int;
    if k < events.len() - 1 {
        lemma_runs_take_in(front, k);
        assert(front[k] == events[k]);
        let i = choose|i: int| 0 <= i < before.len() && takes_in(#[trigger] before[i], events[k]);
        if joins_last(before, x) && i == n - 1 {
            assert(all[i] == merged(before[i], x));
        } else {
            assert(all[i] == before[i]);
        }
        assert(takes_in(all[i], events[k]));
    } else if joins_last(before, x) {
        assert(takes_in(all[n - 1], x));
    } else {
        assert(takes_in(all[n], x));
    }
}

proof fn lemma_runs_near(events: Seq<EventView>)
    requires
        forall|i: int, j: int|
            0 <= i < j < events.len() ==> event_le(#[trigger] events[i], #[trigger] events[j]),
    ensures
        forall|k: int| 0 <= k < events.len() ==> seen_near(runs(events), #[trigger] events[k]),
        events.len() > 0 ==> runs(events).len() > 0 && runs(events).last().reset_at
            == events.last().reset_at && runs(events).last().first_seen_at
            <= events.last().first_seen_at,
    decreases events.len(),
{
    if events.len() > 0 {
        let front = events.drop_last();
        let x = events.last();
        let before = runs(front);
        let all = runs(events);
        let n = before.len() as int;
        assert forall|i: int, j: int| 0 <= i < j < front.len() implies event_le(
            #[trigger] front[i],
            #[trigger] front[j],
        ) by {
            assert(event_le(events[i], events[j]));
        }
        lemma_runs_near(front);
        if front.len() > 0 {
            assert(event_le(events[events.len() - 2], events[events.len() - 1]));
            assert(front.last() == events[events.len() - 2]);
        } else {
            assert(before.len() == 0);
        }
        assert forall|k: int| 0 <= k < events.len() implies seen_near(
            all,
            #[trigger] events[k],
        ) by {
            if k < front.len() {
                assert(seen_near(before, front[k]));
                let i = choose|i: int|
                    0 <= i < before.len() && (#[trigger] before[i]).reset_at == front[k].reset_at
                        && before[i].first_seen_at <= front[k].first_seen_at
                        <= before[i].first_seen_at + 15_000;
                assert(all[i].reset_at == before[i].reset_at && all[i].first_seen_at
                    == before[i].first_seen_at);
            } else if joins_last(before, x) {
                assert(all[n - 1].first_seen_at == before[n - 1].first_seen_at);
            } else {
                assert(all[n] == x);
            }
        }
    }
}

/// Events are in the order of their resets; those of one reset in the order in which they were
/// first seen; and those of one time in the order of their sessions, one without a session first.
pub proof fn law_order_of_events(a: EventView, b: EventView)
    ensures
        a.reset_at < b.reset_at ==> event_le(a, b) && !event_le(b, a),
        a.reset_at == b.reset_at && a.first_seen_at < b.first_seen_at ==> event_le(a, b)
            && !event_le(b, a),
        a.reset_at == b.reset_at && a.first_seen_at == b.first_seen_at && a.session_id
            != b.session_id ==> event_le(a, b) == match (a.session_id, b.session_id) {
            (None, _) => true,
            (Some(_), None) => false,
            (Some(s), Some(t)) => text::text_le(s, t),
        },
{
}

/// Of the models that the lines of one session and one reset give, the first is kept; and the time
/// at which the refusal was first seen is the earliest of all.
pub proof fn law_first_known_model_is_kept(hits: Seq<HitView>, k: int, i: int)
    requires
        0 <= k < hits.len(),
        0 <= i < hits.len(),
        forall|j: int|
            0 <= j < hits.len() ==> (#[trigger] hits[j]).session_id == hits[0].session_id
                && hits[j].reset_at == hits[0].reset_at,
        hits[k].model is Some,
        forall|j: int| 0 <= j < k ==> (#[trigger] hits[j]).model is None,
    ensures
        deduped(hits).len() == 1,
        deduped(hits)[0].model == hits[k].model,
        deduped(hits)[0].reset_at == hits[i].reset_at,
        deduped(hits)[0].first_seen_at <= hits[i].occurred_at,
{
    law_one_event_for_a_session_and_a_reset(hits);
    law_every_line_belongs_to_an_event(hits, i);
    lemma_one_group(hits);
    lemma_model_of_one_group(hits, k);
    let groups = grouped(hits);
    lemma_ascending_holds(groups);
    let sorted = order::ascending::<Event>(groups);
    assert(sorted.contains(sorted[0]));
    assert(groups.contains(sorted[0]));
    assert(sorted.drop_last() =~= Seq::<EventView>::empty());
    reveal_with_fuel(runs, 2);
    assert(deduped(hits) =~= seq![groups[0]]);
}

proof fn lemma_model_of_one_group(hits: Seq<HitView>, k: int)
    requires
        hits.len() > 0,
        forall|j: int|
            0 <= j < hits.len() ==> (#[trigger] hits[j]).session_id == hits[0].session_id
                && hits[j].reset_at == hits[0].reset_at,
    ensures
        grouped(hits).len() == 1,
        0 <= k < hits.len() && hits[k].model is Some && (forall|j: int|
            0 <= j < k ==> (#[trigger] hits[j]).model is None) ==> grouped(hits)[0].model
            == hits[k].model,
        (forall|j: int| 0 <= j < hits.len() ==> (#[trigger] hits[j]).model is None) ==> grouped(
            hits,
        )[0].model is None,
    decreases hits.len(),
{
    let front = hits.drop_last();
    let n = hits.len() - 1;
    let e = event_of(hits.last());
    lemma_one_group(hits);
    lemma_group_from(grouped(front), e, 0);
    assert(hits.last() == hits[n]);
    if front.len() > 0 {
        assert forall|j: int| 0 <= j < front.len() implies (#[trigger] front[j]).session_id
            == front[0].session_id && front[j].reset_at == front[0].reset_at by {
            assert(front[j] == hits[j]);
        }
        assert forall|j: int| 0 <= j < front.len() implies #[trigger] front[j] == hits[j] by {}
        lemma_one_group(front);
        lemma_model_of_one_group(front, k);
        assert(same_group(grouped(front)[0], e));
        assert(group_from(grouped(front), e, 0) == Some(0int));
    } else {
        assert(grouped(front).len() == 0);
    }
}

} // verus!
