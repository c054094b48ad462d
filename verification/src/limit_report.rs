//! What is shown of the refusals: for each account the models that it cannot use now, and until
//! when.

use vstd::prelude::*;

use crate::clock;
use crate::json;
use crate::json::Json;
use crate::json::JsonView;
use crate::limit_events::Event;
use crate::limit_events::EventView;
use crate::order;
use crate::order::Ranked;
use crate::table::Table;
use crate::text;
use crate::variant::WbVariant;

verus! {

/// The number of the latest date directories that are read.
pub const WINDOW_DAYS: u64 = 2;

/// The name of a date directory: `2026-09-17`.
pub const DATE_FORMAT: &'static str = "%Y-%m-%d";

// ---------------------------------------------------------------------------
// The window of date directories
// ---------------------------------------------------------------------------

/// The last two of the names in their order, the last one first.
pub open spec fn newest(names: Seq<Seq<char>>) -> Seq<Seq<char>> {
    let sorted = order::ascending::<String>(names);
    if sorted.len() <= 2 {
        sorted.reverse()
    } else {
        sorted.reverse().take(2)
    }
}

/// The names that are dates.
pub open spec fn dates(names: Seq<Seq<char>>) -> Seq<Seq<char>>
    decreases names.len(),
{
    if names.len() == 0 {
        seq![]
    } else if clock::is_date(names.last(), DATE_FORMAT@) {
        dates(names.drop_last()).push(names.last())
    } else {
        dates(names.drop_last())
    }
}

/// The newest of the directories that are named by dates, the newest first. The names are ISO
/// dates, so their order as texts is their order in time.
pub fn newest_dates(names: Vec<String>) -> (r: Vec<String>)
    ensures
        order::ranks(r@) == newest(order::ranks(names@)),
{
    let mut sorted = order::sort(names);
    let ghost views = order::ranks(sorted@);
    let mut out: Vec<String> = Vec::new();
    let ghost all = sorted@;
    while sorted.len() > 0 && out.len() < 2
        invariant
            sorted@.len() + out@.len() == all.len(),
            out@.len() <= 2,
            sorted@ == all.take(sorted@.len() as int),
            forall|j: int| 0 <= j < out@.len() ==> out@[j] == #[trigger] all[all.len() - 1 - j],
        decreases sorted@.len(),
    {
        let ghost before = sorted@;
        match sorted.pop() {
            Some(name) => {
                assert(sorted@ =~= all.take(sorted@.len() as int));
                out.push(name);
            },
            None => {},
        }
    }
    proof {
        let n = out@.len() as int;
        assert forall|j: int| 0 <= j < n implies #[trigger] order::ranks(out@)[j]
            == views.reverse()[j] by {
            assert(out@[j] == all[all.len() - 1 - j]);
        }
        assert(order::ranks(out@) =~= newest(order::ranks(names@)));
    }
    out
}

/// The names of the directories to read: of those that are dates the two newest, the newest
/// first.
pub fn recent_log_dirs(names: Vec<String>) -> (r: Vec<String>)
    ensures
        order::ranks(r@) == newest(dates(order::ranks(names@))),
{
    let ghost views = order::ranks(names@);
    let mut dated: Vec<String> = Vec::new();
    let mut i: usize = 0;
    assert(order::ranks(dated@) =~= seq![]);
    while i < names.len()
        invariant
            i <= names@.len(),
            views == order::ranks(names@),
            order::ranks(dated@) == dates(views.take(i as int)),
        decreases names@.len() - i,
    {
        let ghost before = dated@;
        assert(views.take(i + 1).drop_last() =~= views.take(i as int));
        if clock::parse_date(names[i].as_str(), DATE_FORMAT) {
            let name = names[i].clone();
            dated.push(name);
            assert(order::ranks(dated@) =~= order::ranks(before).push(name@));
        }
        i += 1;
    }
    assert(views.take(names@.len() as int) =~= views);
    newest_dates(dated)
}

// ---------------------------------------------------------------------------
// Accounts
// ---------------------------------------------------------------------------

/// What is known of an account of the switcher.
#[derive(Debug, PartialEq, Eq)]
pub struct Account {
    pub id: Option<String>,
    pub uid: Option<String>,
    pub variant: WbVariant,
}

#[verifier::ext_equal]
pub struct AccountView {
    pub id: Option<Seq<char>>,
    pub uid: Option<Seq<char>>,
    pub variant: WbVariant,
}

impl Account {
    pub open spec fn view(&self) -> AccountView {
        AccountView {
            id: text::opt_text(self.id),
            uid: text::opt_text(self.uid),
            variant: self.variant,
        }
    }
}

pub open spec fn account_views(accounts: Seq<Account>) -> Seq<AccountView> {
    accounts.map_values(|a: Account| a@)
}

/// The edition's accounts by the user ids of the client.
pub open spec fn accounts_by_uid(accounts: Seq<AccountView>, variant: WbVariant) -> Map<
    Seq<char>,
    Seq<char>,
>
    decreases accounts.len(),
{
    if accounts.len() == 0 {
        Map::empty()
    } else {
        let before = accounts_by_uid(accounts.drop_last(), variant);
        let last = accounts.last();
        match (last.uid, last.id) {
            (Some(uid), Some(id)) => if last.variant == variant {
                before.insert(uid, id)
            } else {
                before
            },
            _ => before,
        }
    }
}

pub fn uid_to_account(accounts: &Vec<Account>, variant: WbVariant) -> (r: Table)
    ensures
        r@ == accounts_by_uid(account_views(accounts@), variant),
{
    let ghost views = account_views(accounts@);
    let mut out = Table::new();
    let mut i: usize = 0;
    while i < accounts.len()
        invariant
            i <= accounts@.len(),
            views == account_views(accounts@),
            out@ == accounts_by_uid(views.take(i as int), variant),
        decreases accounts@.len() - i,
    {
        assert(views.take(i + 1).drop_last() =~= views.take(i as int));
        assert(views.take(i + 1).last() == accounts@[i as int]@);
        match (&accounts[i].uid, &accounts[i].id) {
            (Some(uid), Some(id)) => {
                if accounts[i].variant == variant {
                    out.insert(uid.clone(), id.clone());
                }
            },
            _ => {},
        }
        i += 1;
    }
    assert(views.take(accounts@.len() as int) =~= views);
    out
}

/// A row of the client's database: a session's id and its user's.
pub open spec fn row_view(row: (Option<String>, Option<String>)) -> (
    Option<Seq<char>>,
    Option<Seq<char>>,
) {
    (text::opt_text(row.0), text::opt_text(row.1))
}

pub open spec fn row_views(rows: Seq<(Option<String>, Option<String>)>) -> Seq<
    (Option<Seq<char>>, Option<Seq<char>>),
> {
    rows.map_values(|row: (Option<String>, Option<String>)| row_view(row))
}

/// The accounts by session: a row whose user is not among the accounts gives none.
pub open spec fn accounts_by_session(
    rows: Seq<(Option<Seq<char>>, Option<Seq<char>>)>,
    by_uid: Map<Seq<char>, Seq<char>>,
) -> Map<Seq<char>, Seq<char>>
    decreases rows.len(),
{
    if rows.len() == 0 {
        Map::empty()
    } else {
        let before = accounts_by_session(rows.drop_last(), by_uid);
        match rows.last() {
            (Some(session), Some(uid)) => if by_uid.contains_key(uid) {
                before.insert(session, by_uid[uid])
            } else {
                before
            },
            _ => before,
        }
    }
}

/// The accounts by session, from the rows of the client's database.
pub fn account_by_session(rows: &Vec<(Option<String>, Option<String>)>, by_uid: &Table) -> (r:
    Table)
    ensures
        r@ == accounts_by_session(row_views(rows@), by_uid@),
{
    let ghost views = row_views(rows@);
    let mut out = Table::new();
    let mut i: usize = 0;
    while i < rows.len()
        invariant
            i <= rows@.len(),
            views == row_views(rows@),
            out@ == accounts_by_session(views.take(i as int), by_uid@),
        decreases rows@.len() - i,
    {
        assert(views.take(i + 1).drop_last() =~= views.take(i as int));
        assert(views.take(i + 1).last() == row_view(rows@[i as int]));
        match (&rows[i].0, &rows[i].1) {
            (Some(session), Some(uid)) => match by_uid.get(uid.as_str()) {
                Some(account) => {
                    out.insert(session.clone(), account);
                },
                None => {},
            },
            _ => {},
        }
        i += 1;
    }
    assert(views.take(rows@.len() as int) =~= views);
    out
}

/// `n` question marks with commas between them.
pub open spec fn placeholders(n: nat) -> Seq<char>
    decreases n,
{
    if n == 0 {
        seq![]
    } else if n == 1 {
        seq!['?']
    } else {
        placeholders((n - 1) as nat) + seq![',', '?']
    }
}

/// The query for the users of `n` sessions, all at once.
pub fn sessions_query(n: usize) -> (r: String)
    ensures
        r@ == "SELECT id, user_id FROM sessions WHERE id IN ("@ + placeholders(n as nat) + ")"@,
{
    let mut marks = String::new();
    let mut i: usize = 0;
    while i < n
        invariant
            i <= n,
            marks@ == placeholders(i as nat),
        decreases n - i,
    {
        if i > 0 {
            marks.push(',');
        }
        marks.push('?');
        assert(marks@ =~= placeholders((i + 1) as nat));
        i += 1;
    }
    text::concat3("SELECT id, user_id FROM sessions WHERE id IN (", marks.as_str(), ")")
}

/// Some event is of the session.
pub open spec fn has_session(events: Seq<EventView>, session: Seq<char>) -> bool {
    exists|i: int| 0 <= i < events.len() && (#[trigger] events[i]).session_id == Some(session)
}

/// Each text comes before the next, and none stands twice.
pub open spec fn strictly_ascending(list: Seq<Seq<char>>) -> bool {
    forall|i: int, j: int|
        0 <= i < j < list.len() ==> text::text_le(#[trigger] list[i], #[trigger] list[j]) && list[i]
            != list[j]
}

/// The sessions of the events, each once, in their order as texts.
pub fn session_ids(events: &Vec<Event>) -> (r: Vec<String>)
    ensures
        strictly_ascending(order::ranks(r@)),
        forall|s: Seq<char>|
            order::ranks(r@).contains(s) <==> has_session(order::ranks(events@), s),
{
    let ghost views = order::ranks(events@);
    let mut out: Vec<String> = Vec::new();
    let mut i: usize = 0;
    while i < events.len()
        invariant
            i <= events@.len(),
            views == order::ranks(events@),
            strictly_ascending(order::ranks(out@)),
            forall|s: Seq<char>|
                order::ranks(out@).contains(s) <==> has_session(views.take(i as int), s),
        decreases events@.len() - i,
    {
        let ghost before = order::ranks(out@);
        let ghost front = views.take(i as int);
        let ghost next = views.take(i + 1);
        match &events[i].session_id {
            Some(session) => {
                insert_id(&mut out, session);
                let ghost after = order::ranks(out@);
                assert forall|s: Seq<char>| after.contains(s) <==> has_session(next, s) by {
                    assert(after.contains(s) <==> before.contains(s) || s == session@);
                    if has_session(front, s) {
                        let k = choose|k: int|
                            0 <= k < front.len() && (#[trigger] front[k]).session_id == Some(s);
                        assert(next[k].session_id == Some(s));
                    }
                    if s == session@ {
                        assert(next[i as int].session_id == Some(s));
                    }
                    if has_session(next, s) {
                        let k = choose|k: int|
                            0 <= k < next.len() && (#[trigger] next[k]).session_id == Some(s);
                        if k < i {
                            assert(front[k].session_id == Some(s));
                        }
                    }
                }
            },
            None => {
                assert forall|s: Seq<char>| before.contains(s) <==> has_session(next, s) by {
                    if has_session(front, s) {
                        let k = choose|k: int|
                            0 <= k < front.len() && (#[trigger] front[k]).session_id == Some(s);
                        assert(next[k].session_id == Some(s));
                    }
                    if has_session(next, s) {
                        let k = choose|k: int|
                            0 <= k < next.len() && (#[trigger] next[k]).session_id == Some(s);
                        assert(front[k].session_id == Some(s));
                    }
                }
            },
        }
        i += 1;
    }
    assert(views.take(events@.len() as int) =~= views);
    out
}

fn insert_id(list: &mut Vec<String>, id: &String)
    requires
        strictly_ascending(order::ranks(old(list)@)),
    ensures
        strictly_ascending(order::ranks(final(list)@)),
        forall|s: Seq<char>|
            order::ranks(final(list)@).contains(s) <==> order::ranks(old(list)@).contains(s) || s
                == id@,
{
    let ghost before = order::ranks(list@);
    let mut p: usize = list.len();
    while p > 0 && !text::not_after(list[p - 1].as_str(), id.as_str())
        invariant
            p <= list@.len(),
            before == order::ranks(list@),
            forall|j: int| p <= j < list@.len() ==> !text::text_le(#[trigger] before[j], id@),
        decreases p,
    {
        assert(before[p - 1] == list@[p - 1]@);
        p -= 1;
    }
    if p > 0 && text::same_text(list[p - 1].as_str(), id.as_str()) {
        assert(before[p - 1] == id@);
        return;
    }
    let copy = id.clone();
    list.insert(p, copy);
    proof {
        let after = order::ranks(list@);
        assert(after =~= before.insert(p as int, id@));
        assert forall|i: int, j: int| 0 <= i < j < after.len() implies text::text_le(
            #[trigger] after[i],
            #[trigger] after[j],
        ) && after[i] != after[j] by {
            if i == p {
                assert(after[j] == before[j - 1]);
                text::lemma_text_le_total(after[i], after[j]);
                text::lemma_text_le_reflexive(id@);
            } else if j == p {
                assert(before[p - 1] == after[p - 1]);
                if i < p - 1 {
                    assert(text::text_le(before[i], before[p - 1]));
                    text::lemma_text_le_transitive(before[i], before[p - 1], id@);
                    if before[i] == id@ {
                        text::lemma_text_le_antisymmetric(before[p - 1], id@);
                    }
                }
            } else {
                let a = if i < p { i } else { i - 1 };
                let b = if j < p { j } else { j - 1 };
                assert(after[i] == before[a]);
                assert(after[j] == before[b]);
            }
        }
        assert forall|s: Seq<char>| after.contains(s) <==> before.contains(s) || s == id@ by {
            if before.contains(s) {
                let k = choose|k: int| 0 <= k < before.len() && before[k] == s;
                if k < p {
                    assert(after[k] == s);
                } else {
                    assert(after[k + 1] == s);
                }
            }
            if s == id@ {
                assert(after[p as int] == s);
            }
            if after.contains(s) {
                let k = choose|k: int| 0 <= k < after.len() && after[k] == s;
                if k < p {
                    assert(before[k] == s);
                } else if k > p {
                    assert(before[k - 1] == s);
                }
            }
        }
    }
}

// ---------------------------------------------------------------------------
// From events to what is shown
// ---------------------------------------------------------------------------

/// A refusal whose account is known.
#[derive(Debug, PartialEq, Eq)]
pub struct Resolved {
    pub account_id: String,
    pub model: Option<String>,
    pub reset_at: i64,
    pub first_seen_at: i64,
    pub hit_count: u32,
}

#[verifier::ext_equal]
pub struct ResolvedView {
    pub account_id: Seq<char>,
    pub model: Option<Seq<char>>,
    pub reset_at: i64,
    pub first_seen_at: i64,
    pub hit_count: nat,
}

impl Resolved {
    pub open spec fn view(&self) -> ResolvedView {
        ResolvedView {
            account_id: self.account_id@,
            model: text::opt_text(self.model),
            reset_at: self.reset_at,
            first_seen_at: self.first_seen_at,
            hit_count: self.hit_count as nat,
        }
    }

    fn copy(&self) -> (r: Resolved)
        ensures
            r@ == self@,
    {
        Resolved {
            account_id: self.account_id.clone(),
            model: self.model.clone(),
            reset_at: self.reset_at,
            first_seen_at: self.first_seen_at,
            hit_count: self.hit_count,
        }
    }
}

/// The events of known accounts: one whose session is missing or belongs to none is dropped.
pub open spec fn resolved(events: Seq<EventView>, mapping: Map<Seq<char>, Seq<char>>) -> Seq<
    ResolvedView,
>
    decreases events.len(),
{
    if events.len() == 0 {
        seq![]
    } else {
        let before = resolved(events.drop_last(), mapping);
        let e = events.last();
        match e.session_id {
            Some(session) => if mapping.contains_key(session) {
                before.push(
                    ResolvedView {
                        account_id: mapping[session],
                        model: e.model,
                        reset_at: e.reset_at,
                        first_seen_at: e.first_seen_at,
                        hit_count: e.hit_count,
                    },
                )
            } else {
                before
            },
            None => before,
        }
    }
}

/// Gives each event its account, by its session; an event without one is dropped.
pub fn resolve(events: &Vec<Event>, mapping: &Table) -> (r: Vec<Resolved>)
    ensures
        order::ranks(r@) == resolved(order::ranks(events@), mapping@),
        forall|k: int|
            0 <= k < events@.len() && (#[trigger] events@[k])@.session_id is Some
                && mapping@.contains_key(events@[k]@.session_id->0) ==> order::ranks(r@).contains(
                (ResolvedView {
                    account_id: mapping@[events@[k]@.session_id->0],
                    model: events@[k]@.model,
                    reset_at: events@[k].reset_at,
                    first_seen_at: events@[k].first_seen_at,
                    hit_count: events@[k].hit_count as nat,
                }),
            ),
{
    let ghost views = order::ranks(events@);
    let mut out: Vec<Resolved> = Vec::new();
    let mut i: usize = 0;
    assert(order::ranks(out@) =~= seq![]);
    while i < events.len()
        invariant
            i <= events@.len(),
            views == order::ranks(events@),
            order::ranks(out@) == resolved(views.take(i as int), mapping@),
        decreases events@.len() - i,
    {
        let ghost before = order::ranks(out@);
        assert(views.take(i + 1).drop_last() =~= views.take(i as int));
        assert(views.take(i + 1).last() == events@[i as int]@);
        match &events[i].session_id {
            Some(session) => match mapping.get(session.as_str()) {
                Some(account_id) => {
                    let item = Resolved {
                        account_id,
                        model: events[i].model.clone(),
                        reset_at: events[i].reset_at,
                        first_seen_at: events[i].first_seen_at,
                        hit_count: events[i].hit_count,
                    };
                    out.push(item);
                    assert(order::ranks(out@) =~= before.push(item@));
                },
                None => {},
            },
            None => {},
        }
        i += 1;
    }
    assert(views.take(events@.len() as int) =~= views);
    proof {
        law_each_event_of_an_account_is_kept(views, mapping@);
        assert forall|k: int|
            0 <= k < events@.len() && (#[trigger] events@[k])@.session_id is Some
                && mapping@.contains_key(events@[k]@.session_id->0) implies order::ranks(
            out@,
        ).contains(
            (ResolvedView {
                account_id: mapping@[events@[k]@.session_id->0],
                model: events@[k]@.model,
                reset_at: events@[k].reset_at,
                first_seen_at: events@[k].first_seen_at,
                hit_count: events@[k].hit_count as nat,
            }),
        ) by {
            assert(views[k] == events@[k]@);
        }
    }
    out
}

pub open spec fn same_model(a: ResolvedView, b: ResolvedView) -> bool {
    a.account_id == b.account_id && a.model == b.model
}

/// The first position at or after `from` of an item with the account and model of `item`.
pub open spec fn model_from(items: Seq<ResolvedView>, item: ResolvedView, from: int) -> Option<int>
    decreases items.len() - from,
{
    if from < 0 || from >= items.len() {
        None
    } else if same_model(items[from], item) {
        Some(from)
    } else {
        model_from(items, item, from + 1)
    }
}

/// The items with one more: it replaces one of its account and model with an earlier reset.
pub open spec fn latest_with(items: Seq<ResolvedView>, item: ResolvedView) -> Seq<ResolvedView> {
    match model_from(items, item, 0) {
        Some(i) => if item.reset_at > items[i].reset_at {
            items.update(i, item)
        } else {
            items
        },
        None => items.push(item),
    }
}

/// For each account and model the item with the latest reset, of those whose reset is still to
/// come.
pub open spec fn latest(items: Seq<ResolvedView>, now: i64) -> Seq<ResolvedView>
    decreases items.len(),
{
    if items.len() == 0 {
        seq![]
    } else if items.last().reset_at <= now {
        latest(items.drop_last(), now)
    } else {
        latest_with(latest(items.drop_last(), now), items.last())
    }
}

proof fn lemma_model_from(items: Seq<ResolvedView>, item: ResolvedView, from: int)
    requires
        0 <= from,
    ensures
        model_from(items, item, from) matches Some(i) ==> from <= i < items.len() && same_model(
            items[i],
            item,
        ),
        model_from(items, item, from) is None ==> forall|j: int|
            from <= j < items.len() ==> !same_model(#[trigger] items[j], item),
    decreases items.len() - from,
{
    if from < items.len() && !same_model(items[from], item) {
        lemma_model_from(items, item, from + 1);
    }
}

fn model_index(items: &Vec<Resolved>, item: &Resolved) -> (r: Option<usize>)
    ensures
        match r {
            Some(i) => i < items@.len() && model_from(order::ranks(items@), item@, 0) == Some(
                i as int,
            ),
            None => model_from(order::ranks(items@), item@, 0) is None,
        },
{
    let mut i: usize = 0;
    while i < items.len()
        invariant
            i <= items@.len(),
            model_from(order::ranks(items@), item@, 0) == model_from(
                order::ranks(items@),
                item@,
                i as int,
            ),
        decreases items@.len() - i,
    {
        if text::same_text(items[i].account_id.as_str(), item.account_id.as_str())
            && text::same_opt_text(&items[i].model, &item.model) {
            return Some(i);
        }
        i += 1;
    }
    None
}

fn latest_items(items: &Vec<Resolved>, now: i64) -> (r: Vec<Resolved>)
    ensures
        order::ranks(r@) == latest(order::ranks(items@), now),
{
    let ghost views = order::ranks(items@);
    let mut out: Vec<Resolved> = Vec::new();
    let mut i: usize = 0;
    assert(order::ranks(out@) =~= seq![]);
    while i < items.len()
        invariant
            i <= items@.len(),
            views == order::ranks(items@),
            order::ranks(out@) == latest(views.take(i as int), now),
        decreases items@.len() - i,
    {
        let ghost before = order::ranks(out@);
        assert(views.take(i + 1).drop_last() =~= views.take(i as int));
        assert(views.take(i + 1).last() == items@[i as int]@);
        if items[i].reset_at > now {
            match model_index(&out, &items[i]) {
                Some(k) => {
                    assert(before[k as int] == out@[k as int]@);
                    if items[i].reset_at > out[k].reset_at {
                        out.set(k, items[i].copy());
                        assert(order::ranks(out@) =~= before.update(k as int, items@[i as int]@));
                    }
                },
                None => {
                    out.push(items[i].copy());
                    assert(order::ranks(out@) =~= before.push(items@[i as int]@));
                },
            }
        }
        i += 1;
    }
    assert(views.take(items@.len() as int) =~= views);
    out
}

/// Items by account, then by reset, then by model.
pub open spec fn resolved_le(a: ResolvedView, b: ResolvedView) -> bool {
    if a.account_id != b.account_id {
        text::text_le(a.account_id, b.account_id)
    } else if a.reset_at != b.reset_at {
        a.reset_at < b.reset_at
    } else if a.model != b.model {
        text::opt_text_le(a.model, b.model)
    } else if a.first_seen_at != b.first_seen_at {
        a.first_seen_at < b.first_seen_at
    } else {
        a.hit_count <= b.hit_count
    }
}

impl Ranked for Resolved {
    type Rank = ResolvedView;

    open spec fn rank(&self) -> ResolvedView {
        self@
    }

    open spec fn ordered(a: ResolvedView, b: ResolvedView) -> bool {
        resolved_le(a, b)
    }

    proof fn lemma_ordered() {
        let leq = |a: ResolvedView, b: ResolvedView| Self::ordered(a, b);
        assert forall|a: ResolvedView, b: ResolvedView| #[trigger] leq(a, b) || #[trigger] leq(
            b,
            a,
        ) by {
            text::lemma_text_le_total(a.account_id, b.account_id);
            text::lemma_opt_text_le_total(a.model, b.model);
        }
        assert forall|a: ResolvedView, b: ResolvedView| #[trigger]
            leq(a, b) && #[trigger] leq(b, a) implies a == b by {
            if a.account_id != b.account_id {
                text::lemma_text_le_antisymmetric(a.account_id, b.account_id);
            }
            text::lemma_opt_text_le_total(a.model, b.model);
        }
        assert forall|a: ResolvedView, b: ResolvedView, c: ResolvedView| #[trigger]
            leq(a, b) && #[trigger] leq(b, c) implies leq(a, c) by {
            if a.account_id != b.account_id && b.account_id != c.account_id {
                text::lemma_text_le_transitive(a.account_id, b.account_id, c.account_id);
                if a.account_id == c.account_id {
                    text::lemma_text_le_antisymmetric(a.account_id, b.account_id);
                }
            }
            if text::opt_text_le(a.model, b.model) && text::opt_text_le(b.model, c.model) {
                text::lemma_opt_text_le_transitive(a.model, b.model, c.model);
            }
            text::lemma_opt_text_le_total(a.model, b.model);
            text::lemma_opt_text_le_total(b.model, c.model);
        }
    }

    fn not_after(&self, other: &Self) -> (r: bool) {
        if !text::same_text(self.account_id.as_str(), other.account_id.as_str()) {
            text::not_after(self.account_id.as_str(), other.account_id.as_str())
        } else if self.reset_at != other.reset_at {
            self.reset_at < other.reset_at
        } else if !text::same_opt_text(&self.model, &other.model) {
            text::opt_not_after(&self.model, &other.model)
        } else if self.first_seen_at != other.first_seen_at {
            self.first_seen_at < other.first_seen_at
        } else {
            self.hit_count <= other.hit_count
        }
    }
}

/// The models that an account cannot use now.
pub struct AccountLimits {
    pub account_id: String,
    pub limited: Vec<Resolved>,
}

#[verifier::ext_equal]
pub struct AccountLimitsView {
    pub account_id: Seq<char>,
    pub limited: Seq<ResolvedView>,
}

impl AccountLimits {
    pub open spec fn view(&self) -> AccountLimitsView {
        AccountLimitsView {
            account_id: self.account_id@,
            limited: order::ranks(self.limited@),
        }
    }
}

pub open spec fn limits_views(accounts: Seq<AccountLimits>) -> Seq<AccountLimitsView> {
    accounts.map_values(|a: AccountLimits| a@)
}

/// The accounts with one more item: in the last account where it is that one's, else in a new
/// one.
pub open spec fn account_with(
    accounts: Seq<AccountLimitsView>,
    item: ResolvedView,
) -> Seq<AccountLimitsView> {
    if accounts.len() > 0 && accounts.last().account_id == item.account_id {
        accounts.drop_last().push(
            AccountLimitsView {
                account_id: item.account_id,
                limited: accounts.last().limited.push(item),
            },
        )
    } else {
        accounts.push(
            AccountLimitsView { account_id: item.account_id, limited: seq![item] },
        )
    }
}

/// The ordered items account by account.
pub open spec fn by_account(items: Seq<ResolvedView>) -> Seq<AccountLimitsView>
    decreases items.len(),
{
    if items.len() == 0 {
        seq![]
    } else {
        account_with(by_account(items.drop_last()), items.last())
    }
}

/// The accounts that cannot use some model now, in the order of their ids; each with those
/// models, the one that comes back first in front.
pub open spec fn limited_now(items: Seq<ResolvedView>, now: i64) -> Seq<AccountLimitsView> {
    by_account(order::ascending::<Resolved>(latest(items, now)))
}

/// The accounts that cannot use some model now. An account that can use every model is not
/// among them.
pub fn limited_accounts(items: &Vec<Resolved>, now: i64) -> (r: Vec<AccountLimits>)
    ensures
        limits_views(r@) == limited_now(order::ranks(items@), now),
{
    let sorted = order::sort(latest_items(items, now));
    let ghost views = order::ranks(sorted@);
    let mut out: Vec<AccountLimits> = Vec::new();
    let mut i: usize = 0;
    assert(limits_views(out@) =~= seq![]);
    while i < sorted.len()
        invariant
            i <= sorted@.len(),
            views == order::ranks(sorted@),
            limits_views(out@) == by_account(views.take(i as int)),
        decreases sorted@.len() - i,
    {
        let ghost before = limits_views(out@);
        let ghost list = out@;
        assert(views.take(i + 1).drop_last() =~= views.take(i as int));
        let item = sorted[i].copy();
        let ghost e = item@;
        assert(views.take(i + 1).last() == e);
        let joins = match out.pop() {
            Some(last) => {
                assert(before.last() == last@);
                assert(limits_views(out@) =~= before.drop_last());
                if text::same_text(last.account_id.as_str(), item.account_id.as_str()) {
                    Some(last)
                } else {
                    out.push(last);
                    assert(out@ =~= list);
                    None
                }
            },
            None => {
                assert(out@ =~= list);
                None
            },
        };
        match joins {
            Some(last) => {
                let ghost base = limits_views(out@);
                let account_id = last.account_id;
                let mut limited = last.limited;
                let ghost items_before = limited@;
                limited.push(item);
                assert(order::ranks(limited@) =~= order::ranks(items_before).push(e));
                let grown = AccountLimits { account_id, limited };
                out.push(grown);
                assert(limits_views(out@) =~= base.push(grown@));
            },
            None => {
                let account_id = item.account_id.clone();
                let mut limited: Vec<Resolved> = Vec::new();
                limited.push(item);
                assert(order::ranks(limited@) =~= seq![e]);
                let fresh = AccountLimits { account_id, limited };
                out.push(fresh);
                assert(limits_views(out@) =~= before.push(fresh@));
            },
        }
        i += 1;
    }
    assert(views.take(sorted@.len() as int) =~= views);
    out
}

/// How one refused model is shown.
pub open spec fn limited_json(item: ResolvedView) -> JsonView {
    JsonView::Object(
        map![
            "model"@ => json::opt_text_view(item.model),
            "resetAt"@ => json::integer_view(item.reset_at),
            "firstSeenAt"@ => json::integer_view(item.first_seen_at),
            "hitCount"@ => JsonView::Unsigned(item.hit_count as u64)
        ],
    )
}

/// How an account and its refused models are shown.
pub open spec fn account_json(account: AccountLimitsView) -> JsonView {
    JsonView::Object(
        map![
            "accountId"@ => JsonView::Text(account.account_id),
            "limited"@ => JsonView::Array(account.limited.map_values(|i: ResolvedView| limited_json(i)))
        ],
    )
}

/// The state of all accounts at a time.
pub open spec fn payload_json(accounts: Seq<AccountLimitsView>, now: i64) -> JsonView {
    JsonView::Object(
        map![
            "scannedAt"@ => json::integer_view(now),
            "windowDays"@ => JsonView::Unsigned(WINDOW_DAYS),
            "accounts"@ => JsonView::Array(accounts.map_values(|a: AccountLimitsView| account_json(a)))
        ],
    )
}

fn limited_value(item: &Resolved) -> (r: Json)
    ensures
        r@ == limited_json(item@),
{
    let fields = json::with_field(Vec::new(), "model", json::optional_text(&item.model));
    let fields = json::with_field(fields, "resetAt", json::integer(item.reset_at));
    let fields = json::with_field(fields, "firstSeenAt", json::integer(item.first_seen_at));
    let fields = json::with_field(fields, "hitCount", Json::Unsigned(item.hit_count as u64));
    Json::Object(fields)
}

fn account_value(account: &AccountLimits) -> (r: Json)
    ensures
        r@ == account_json(account@),
{
    let ghost views = order::ranks(account.limited@);
    let mut items: Vec<Json> = Vec::new();
    let mut i: usize = 0;
    while i < account.limited.len()
        invariant
            i <= account.limited@.len(),
            views == order::ranks(account.limited@),
            json::item_views(items@) == views.take(i as int).map_values(
                |i: ResolvedView| limited_json(i),
            ),
        decreases account.limited@.len() - i,
    {
        let ghost before = items@;
        items.push(limited_value(&account.limited[i]));
        assert(items@.drop_last() =~= before);
        assert(json::item_views(items@) =~= views.take(i + 1).map_values(
            |i: ResolvedView| limited_json(i),
        ));
        i += 1;
    }
    assert(views.take(account.limited@.len() as int) =~= views);
    let fields = json::with_field(
        Vec::new(),
        "accountId",
        json::text_value(account.account_id.as_str()),
    );
    let fields = json::with_field(fields, "limited", Json::Array(items));
    Json::Object(fields)
}

/// The state of all accounts at `now`: for each account and model the latest reset, where it is
/// still to come.
pub fn build_payload(items: &Vec<Resolved>, now: i64) -> (r: Json)
    ensures
        r@ == payload_json(limited_now(order::ranks(items@), now), now),
{
    let accounts = limited_accounts(items, now);
    let ghost views = limits_views(accounts@);
    let mut values: Vec<Json> = Vec::new();
    let mut i: usize = 0;
    while i < accounts.len()
        invariant
            i <= accounts@.len(),
            views == limits_views(accounts@),
            json::item_views(values@) == views.take(i as int).map_values(
                |a: AccountLimitsView| account_json(a),
            ),
        decreases accounts@.len() - i,
    {
        let ghost before = values@;
        values.push(account_value(&accounts[i]));
        assert(values@.drop_last() =~= before);
        assert(json::item_views(values@) =~= views.take(i + 1).map_values(
            |a: AccountLimitsView| account_json(a),
        ));
        i += 1;
    }
    assert(views.take(accounts@.len() as int) =~= views);
    let fields = json::with_field(Vec::new(), "scannedAt", json::integer(now));
    let fields = json::with_field(fields, "windowDays", Json::Unsigned(WINDOW_DAYS));
    let fields = json::with_field(fields, "accounts", Json::Array(values));
    Json::Object(fields)
}

// ---------------------------------------------------------------------------
// Laws
// ---------------------------------------------------------------------------

/// The items that are shown, account after account.
pub open spec fn shown(accounts: Seq<AccountLimitsView>) -> Seq<ResolvedView>
    decreases accounts.len(),
{
    if accounts.len() == 0 {
        seq![]
    } else {
        shown(accounts.drop_last()) + accounts.last().limited
    }
}

/// No two items are of one account and model.
pub open spec fn models_distinct(items: Seq<ResolvedView>) -> bool {
    forall|i: int, j: int|
        0 <= i < j < items.len() ==> !same_model(#[trigger] items[i], #[trigger] items[j])
}

proof fn lemma_latest(items: Seq<ResolvedView>, now: i64)
    ensures
        models_distinct(latest(items, now)),
        forall|k: int|
            0 <= k < latest(items, now).len() ==> (#[trigger] latest(items, now)[k]).reset_at > now
                && items.contains(latest(items, now)[k]),
    decreases items.len(),
{
    if items.len() > 0 {
        let front = items.drop_last();
        let item = items.last();
        lemma_latest(front, now);
        let l = latest(front, now);
        let all = latest(items, now);
        lemma_model_from(l, item, 0);
        assert(items[items.len() - 1] == item);
        assert forall|k: int| 0 <= k < all.len() implies (#[trigger] all[k]).reset_at > now
            && items.contains(all[k]) by {
            if k < l.len() && all[k] == l[k] {
                let m = choose|m: int| 0 <= m < front.len() && front[m] == l[k];
                assert(items[m] == all[k]);
            } else {
                assert(all[k] == item);
            }
        }
        assert forall|i: int, j: int| 0 <= i < j < all.len() implies !same_model(
            #[trigger] all[i],
            #[trigger] all[j],
        ) by {
            if j < l.len() {
                assert(!same_model(l[i], l[j]));
            } else if i < l.len() {
                assert(!same_model(l[i], item));
            }
        }
    }
}

proof fn lemma_latest_covers(items: Seq<ResolvedView>, now: i64, k: int)
    requires
        0 <= k < items.len(),
        items[k].reset_at > now,
    ensures
        exists|j: int|
            0 <= j < latest(items, now).len() && same_model(
                #[trigger] latest(items, now)[j],
                items[k],
            ) && latest(items, now)[j].reset_at >= items[k].reset_at,
    decreases items.len(),
{
    let front = items.drop_last();
    let last = items.last();
    let l = latest(front, now);
    let all = latest(items, now);
    lemma_model_from(l, last, 0);
    if k < items.len() - 1 {
        assert(front[k] == items[k]);
        lemma_latest_covers(front, now, k);
        let j = choose|j: int|
            0 <= j < l.len() && same_model(#[trigger] l[j], items[k]) && l[j].reset_at
                >= items[k].reset_at;
        assert(same_model(all[j], items[k]) && all[j].reset_at >= items[k].reset_at);
    } else {
        match model_from(l, last, 0) {
            Some(j) => {
                assert(same_model(all[j], items[k]) && all[j].reset_at >= items[k].reset_at);
            },
            None => {
                assert(same_model(all[l.len() as int], items[k]));
            },
        }
    }
}

proof fn lemma_shown_by_account(items: Seq<ResolvedView>)
    ensures
        shown(by_account(items)) == items,
        forall|k: int|
            0 <= k < by_account(items).len() ==> (#[trigger] by_account(items)[k]).limited.len()
                > 0,
        forall|k: int, m: int|
            0 <= k < by_account(items).len() && 0 <= m < by_account(items)[k].limited.len() ==> (
            #[trigger] by_account(items)[k].limited[m]).account_id
                == by_account(items)[k].account_id,
    decreases items.len(),
{
    if items.len() > 0 {
        let front = items.drop_last();
        lemma_shown_by_account(front);
        let a = by_account(front);
        let all = by_account(items);
        let item = items.last();
        if a.len() > 0 && a.last().account_id == item.account_id {
            assert(all.drop_last() =~= a.drop_last());
            assert(shown(all) =~= shown(a).push(item));
        } else {
            assert(all.drop_last() =~= a);
            assert(shown(all) =~= shown(a).push(item));
        }
        assert(front.push(item) =~= items);
    }
}

proof fn lemma_shown(items: Seq<ResolvedView>, now: i64)
    ensures
        shown(limited_now(items, now)) == order::ascending::<Resolved>(latest(items, now)),
        shown(limited_now(items, now)).to_multiset() == latest(items, now).to_multiset(),
{
    Resolved::lemma_ordered();
    latest(items, now).lemma_sort_by_ensures(
        |a: ResolvedView, b: ResolvedView| Resolved::ordered(a, b),
    );
    lemma_shown_by_account(order::ascending::<Resolved>(latest(items, now)));
}

proof fn lemma_shown_contains(items: Seq<ResolvedView>, now: i64, x: ResolvedView)
    ensures
        shown(limited_now(items, now)).contains(x) <==> latest(items, now).contains(x),
{
    broadcast use vstd::seq_lib::group_to_multiset_ensures;

    lemma_shown(items, now);
    assert(shown(limited_now(items, now)).to_multiset().count(x) == latest(
        items,
        now,
    ).to_multiset().count(x));
}

/// Nothing is shown whose reset has come, and nothing that no event told of.
pub proof fn law_nothing_expired_is_shown(items: Seq<ResolvedView>, now: i64, x: ResolvedView)
    requires
        shown(limited_now(items, now)).contains(x),
    ensures
        x.reset_at > now,
        items.contains(x),
{
    lemma_shown_contains(items, now, x);
    lemma_latest(items, now);
    let k = choose|k: int| 0 <= k < latest(items, now).len() && latest(items, now)[k] == x;
    assert(latest(items, now)[k].reset_at > now);
}

/// Every refusal whose reset is still to come is shown, by an item of its account and model
/// whose reset is no earlier.
pub proof fn law_every_current_limit_is_shown(items: Seq<ResolvedView>, now: i64, k: int)
    requires
        0 <= k < items.len(),
        items[k].reset_at > now,
    ensures
        exists|x: ResolvedView| #[trigger]
            shown(limited_now(items, now)).contains(x) && same_model(x, items[k]) && x.reset_at
                >= items[k].reset_at,
{
    lemma_latest_covers(items, now, k);
    let l = latest(items, now);
    let j = choose|j: int|
        0 <= j < l.len() && same_model(#[trigger] l[j], items[k]) && l[j].reset_at
            >= items[k].reset_at;
    lemma_shown_contains(items, now, l[j]);
    assert(l.contains(l[j]));
    assert(shown(limited_now(items, now)).contains(l[j]));
}

/// Each account and model is shown once.
pub proof fn law_each_model_is_shown_once(items: Seq<ResolvedView>, now: i64)
    ensures
        models_distinct(shown(limited_now(items, now))),
{
    let l = latest(items, now);
    let s = shown(limited_now(items, now));
    lemma_latest(items, now);
    lemma_shown(items, now);
    assert(l.no_duplicates()) by {
        assert forall|i: int, j: int|
            (0 <= i < l.len() && 0 <= j < l.len() && i != j) implies l[i] != l[j] by {
            if i < j {
                assert(!same_model(l[i], l[j]));
            } else {
                assert(!same_model(l[j], l[i]));
            }
        }
    }
    l.lemma_multiset_has_no_duplicates();
    s.lemma_multiset_has_no_duplicates_conv();
    assert forall|i: int, j: int| 0 <= i < j < s.len() implies !same_model(
        #[trigger] s[i],
        #[trigger] s[j],
    ) by {
        lemma_shown_contains(items, now, s[i]);
        lemma_shown_contains(items, now, s[j]);
        assert(s.contains(s[i]));
        assert(s.contains(s[j]));
        let a = choose|a: int| 0 <= a < l.len() && l[a] == s[i];
        let b = choose|b: int| 0 <= b < l.len() && l[b] == s[j];
        assert(s[i] != s[j]);
        if a < b {
            assert(!same_model(l[a], l[b]));
        } else {
            assert(!same_model(l[b], l[a]));
        }
    }
}

/// An account is shown only with models that it cannot use, all of them its own.
pub proof fn law_no_account_is_shown_without_a_limit(items: Seq<ResolvedView>, now: i64, k: int)
    requires
        0 <= k < limited_now(items, now).len(),
    ensures
        limited_now(items, now)[k].limited.len() > 0,
        forall|m: int|
            0 <= m < limited_now(items, now)[k].limited.len() ==> (#[trigger] limited_now(
                items,
                now,
            )[k].limited[m]).account_id == limited_now(items, now)[k].account_id,
{
    lemma_shown_by_account(order::ascending::<Resolved>(latest(items, now)));
}

/// Every event whose session belongs to an account is kept for that account, with the event's own
/// model, times and count; and nothing is kept that is not such an event.
pub proof fn law_each_event_of_an_account_is_kept(
    events: Seq<EventView>,
    mapping: Map<Seq<char>, Seq<char>>,
)
    ensures
        forall|k: int, session: Seq<char>|
            0 <= k < events.len() && (#[trigger] events[k]).session_id == Some(session)
                && #[trigger] mapping.contains_key(session) ==> resolved(events, mapping).contains(
                (ResolvedView {
                    account_id: mapping[session],
                    model: events[k].model,
                    reset_at: events[k].reset_at,
                    first_seen_at: events[k].first_seen_at,
                    hit_count: events[k].hit_count,
                }),
            ),
        forall|i: int|
            0 <= i < resolved(events, mapping).len() ==> exists|k: int|
                0 <= k < events.len() && (#[trigger] events[k]).session_id is Some
                    && mapping.contains_pair(
                    events[k].session_id->0,
                    (#[trigger] resolved(events, mapping)[i]).account_id,
                ) && resolved(events, mapping)[i].model == events[k].model && resolved(
                    events,
                    mapping,
                )[i].reset_at == events[k].reset_at && resolved(events, mapping)[i].first_seen_at
                    == events[k].first_seen_at && resolved(events, mapping)[i].hit_count
                    == events[k].hit_count,
    decreases events.len(),
{
    if events.len() > 0 {
        let front = events.drop_last();
        let n = events.len() - 1;
        let before = resolved(front, mapping);
        let all = resolved(events, mapping);
        law_each_event_of_an_account_is_kept(front, mapping);
        assert forall|k: int, session: Seq<char>|
            0 <= k < events.len() && (#[trigger] events[k]).session_id == Some(session)
                && #[trigger] mapping.contains_key(session) implies all.contains(
            (ResolvedView {
                account_id: mapping[session],
                model: events[k].model,
                reset_at: events[k].reset_at,
                first_seen_at: events[k].first_seen_at,
                hit_count: events[k].hit_count,
            }),
        ) by {
            let x = ResolvedView {
                account_id: mapping[session],
                model: events[k].model,
                reset_at: events[k].reset_at,
                first_seen_at: events[k].first_seen_at,
                hit_count: events[k].hit_count,
            };
            if k < n {
                assert(front[k] == events[k]);
                assert(before.contains(x));
                let p = choose|p: int| 0 <= p < before.len() && before[p] == x;
                assert(all[p] == x);
            } else {
                assert(all[before.len() as int] == x);
            }
        }
        assert forall|i: int| 0 <= i < all.len() implies exists|k: int|
            0 <= k < events.len() && (#[trigger] events[k]).session_id is Some
                && mapping.contains_pair(
                events[k].session_id->0,
                (#[trigger] all[i]).account_id,
            ) && all[i].model == events[k].model && all[i].reset_at == events[k].reset_at
                && all[i].first_seen_at == events[k].first_seen_at && all[i].hit_count
                == events[k].hit_count by {
            if i < before.len() {
                assert(before[i] == all[i]);
                let k = choose|k: int|
                    0 <= k < front.len() && (#[trigger] front[k]).session_id is Some
                        && mapping.contains_pair(
                        front[k].session_id->0,
                        before[i].account_id,
                    ) && before[i].model == front[k].model && before[i].reset_at
                        == front[k].reset_at && before[i].first_seen_at == front[k].first_seen_at
                        && before[i].hit_count == front[k].hit_count;
                assert(events[k] == front[k]);
            } else {
                assert(events[n].session_id is Some);
            }
        }
    }
}

/// Each event is kept by itself and once: the events of one list and of another give what the
/// first gives and then what the second gives, and one event gives one item or none.
pub proof fn law_each_event_is_kept_once(
    a: Seq<EventView>,
    b: Seq<EventView>,
    e: EventView,
    mapping: Map<Seq<char>, Seq<char>>,
)
    ensures
        resolved(a + b, mapping) == resolved(a, mapping) + resolved(b, mapping),
        resolved(seq![e], mapping).len() == if e.session_id is Some && mapping.contains_key(
            e.session_id->0,
        ) {
            1int
        } else {
            0int
        },
    decreases b.len(),
{
    assert(seq![e].drop_last() =~= Seq::<EventView>::empty());
    reveal_with_fuel(resolved, 2);
    if b.len() == 0 {
        assert(a + b =~= a);
        assert(resolved(a, mapping) + resolved(b, mapping) =~= resolved(a, mapping));
    } else {
        assert((a + b).drop_last() =~= a + b.drop_last());
        assert((a + b).last() == b.last());
        law_each_event_is_kept_once(a, b.drop_last(), e, mapping);
        let front = resolved(a, mapping) + resolved(b.drop_last(), mapping);
        if b.last().session_id is Some && mapping.contains_key(b.last().session_id->0) {
            let x = resolved(b, mapping).last();
            assert(resolved(a, mapping) + resolved(b, mapping) =~= front.push(x));
        }
    }
}

/// Of the refusals of one account and one model whose reset is still to come, the one with the
/// latest reset is shown; where several share it, the first of them.
pub proof fn law_latest_reset_of_a_model_is_shown(items: Seq<ResolvedView>, now: i64, k: int)
    requires
        0 <= k < items.len(),
        items[k].reset_at > now,
        forall|j: int|
            0 <= j < items.len() && j != k && (#[trigger] items[j]).account_id
                == items[k].account_id && items[j].model == items[k].model ==> items[j].reset_at
                < items[k].reset_at || (j > k && items[j].reset_at == items[k].reset_at),
    ensures
        shown(limited_now(items, now)).contains(items[k]),
        forall|x: ResolvedView| #[trigger]
            shown(limited_now(items, now)).contains(x) && x.account_id == items[k].account_id
                && x.model == items[k].model ==> x == items[k],
{
    lemma_latest_holds(items, now, k);
    lemma_latest(items, now);
    lemma_shown_contains(items, now, items[k]);
    let l = latest(items, now);
    let p = choose|p: int| 0 <= p < l.len() && l[p] == items[k];
    assert forall|x: ResolvedView| #[trigger]
        shown(limited_now(items, now)).contains(x) && x.account_id == items[k].account_id && x.model
            == items[k].model implies x == items[k] by {
        lemma_shown_contains(items, now, x);
        let q = choose|q: int| 0 <= q < l.len() && l[q] == x;
        if p < q {
            assert(!same_model(l[p], l[q]));
        } else if q < p {
            assert(!same_model(l[q], l[p]));
        }
    }
}

proof fn lemma_latest_holds(items: Seq<ResolvedView>, now: i64, k: int)
    requires
        0 <= k < items.len(),
        items[k].reset_at > now,
        forall|j: int|
            0 <= j < items.len() && j != k && (#[trigger] items[j]).account_id
                == items[k].account_id && items[j].model == items[k].model ==> items[j].reset_at
                < items[k].reset_at || (j > k && items[j].reset_at == items[k].reset_at),
    ensures
        latest(items, now).contains(items[k]),
    decreases items.len(),
{
    let front = items.drop_last();
    let last = items.last();
    let n = items.len() - 1;
    let l = latest(front, now);
    let all = latest(items, now);
    lemma_latest(front, now);
    lemma_model_from(l, last, 0);
    if k < n {
        assert(front[k] == items[k]);
        assert forall|j: int|
            0 <= j < front.len() && j != k && (#[trigger] front[j]).account_id
                == front[k].account_id && front[j].model == front[k].model implies front[j].reset_at
            < front[k].reset_at || (j > k && front[j].reset_at == front[k].reset_at) by {
            assert(items[j] == front[j]);
        }
        lemma_latest_holds(front, now, k);
        let p = choose|p: int| 0 <= p < l.len() && l[p] == items[k];
        assert(items[n] == last);
        if last.reset_at > now {
            match model_from(l, last, 0) {
                Some(i) => {
                    if same_model(items[k], last) {
                        if i < p {
                            assert(!same_model(l[i], l[p]));
                        } else if p < i {
                            assert(!same_model(l[p], l[i]));
                        }
                    }
                    assert(all[p] == items[k]);
                },
                None => {
                    assert(all[p] == items[k]);
                },
            }
        } else {
            assert(all[p] == items[k]);
        }
    } else {
        match model_from(l, last, 0) {
            Some(i) => {
                assert(front.contains(l[i]));
                let j = choose|j: int| 0 <= j < front.len() && front[j] == l[i];
                assert(items[j] == l[i]);
                assert(all[i] == items[k]);
            },
            None => {
                assert(all[l.len() as int] == items[k]);
            },
        }
    }
}

/// The accounts are shown in the order of their ids, each once; the models of an account in the
/// order in which they come back.
pub proof fn law_limits_are_shown_in_order(items: Seq<ResolvedView>, now: i64)
    ensures
        forall|i: int, j: int|
            0 <= i < j < limited_now(items, now).len() ==> text::text_le(
                (#[trigger] limited_now(items, now)[i]).account_id,
                (#[trigger] limited_now(items, now)[j]).account_id,
            ) && limited_now(items, now)[i].account_id != limited_now(items, now)[j].account_id,
        forall|k: int, i: int, j: int|
            0 <= k < limited_now(items, now).len() && 0 <= i < j < limited_now(
                items,
                now,
            )[k].limited.len() ==> (#[trigger] limited_now(items, now)[k].limited[i]).reset_at <= (
            #[trigger] limited_now(items, now)[k].limited[j]).reset_at,
{
    let l = latest(items, now);
    let leq = |a: ResolvedView, b: ResolvedView| Resolved::ordered(a, b);
    Resolved::lemma_ordered();
    l.lemma_sort_by_ensures(leq);
    let sorted = order::ascending::<Resolved>(l);
    assert forall|i: int, j: int| 0 <= i < j < sorted.len() implies resolved_le(
        #[trigger] sorted[i],
        #[trigger] sorted[j],
    ) by {
        assert(leq(sorted[i], sorted[j]));
    }
    lemma_by_account_order(sorted);
}

proof fn lemma_by_account_order(items: Seq<ResolvedView>)
    requires
        forall|i: int, j: int|
            0 <= i < j < items.len() ==> resolved_le(#[trigger] items[i], #[trigger] items[j]),
    ensures
        items.len() > 0 ==> by_account(items).len() > 0 && by_account(items).last().account_id
            == items.last().account_id && by_account(items).last().limited.len() > 0
            && by_account(items).last().limited.last() == items.last(),
        forall|i: int, j: int|
            0 <= i < j < by_account(items).len() ==> text::text_le(
                (#[trigger] by_account(items)[i]).account_id,
                (#[trigger] by_account(items)[j]).account_id,
            ) && by_account(items)[i].account_id != by_account(items)[j].account_id,
        forall|k: int, i: int, j: int|
            0 <= k < by_account(items).len() && 0 <= i < j < by_account(items)[k].limited.len()
                ==> (#[trigger] by_account(items)[k].limited[i]).reset_at <= (
            #[trigger] by_account(items)[k].limited[j]).reset_at,
    decreases items.len(),
{
    if items.len() > 0 {
        let front = items.drop_last();
        let item = items.last();
        let n = items.len() - 1;
        assert forall|i: int, j: int| 0 <= i < j < front.len() implies resolved_le(
            #[trigger] front[i],
            #[trigger] front[j],
        ) by {
            assert(resolved_le(items[i], items[j]));
        }
        lemma_by_account_order(front);
        let a = by_account(front);
        let all = by_account(items);
        if front.len() > 0 {
            assert(resolved_le(items[n - 1], items[n]));
            assert(front.last() == items[n - 1]);
        } else {
            assert(a.len() == 0);
        }
        if a.len() > 0 && a.last().account_id == item.account_id {
            assert(all.len() == a.len());
            assert forall|k: int, i: int, j: int|
                0 <= k < all.len() && 0 <= i < j < all[k].limited.len() implies (
            #[trigger] all[k].limited[i]).reset_at <= (#[trigger] all[k].limited[j]).reset_at by {
                if k < a.len() - 1 {
                    assert(all[k] == a[k]);
                    assert(a[k].limited[i].reset_at <= a[k].limited[j].reset_at);
                } else {
                    let m = a[k].limited.len() - 1;
                    assert(all[k].limited == a[k].limited.push(item));
                    if j <= m {
                        assert(a[k].limited[i].reset_at <= a[k].limited[j].reset_at);
                    } else if i < m {
                        assert(a[k].limited[i].reset_at <= a[k].limited[m].reset_at);
                    }
                }
            }
            assert forall|i: int, j: int| 0 <= i < j < all.len() implies text::text_le(
                (#[trigger] all[i]).account_id,
                (#[trigger] all[j]).account_id,
            ) && all[i].account_id != all[j].account_id by {
                assert(text::text_le(a[i].account_id, a[j].account_id));
            }
        } else {
            assert(all == a.push(
                AccountLimitsView { account_id: item.account_id, limited: seq![item] },
            ));
            assert forall|k: int, i: int, j: int|
                0 <= k < all.len() && 0 <= i < j < all[k].limited.len() implies (
            #[trigger] all[k].limited[i]).reset_at <= (#[trigger] all[k].limited[j]).reset_at by {
                if k < a.len() {
                    assert(a[k].limited[i].reset_at <= a[k].limited[j].reset_at);
                }
            }
            assert forall|i: int, j: int| 0 <= i < j < all.len() implies text::text_le(
                (#[trigger] all[i]).account_id,
                (#[trigger] all[j]).account_id,
            ) && all[i].account_id != all[j].account_id by {
                if j < a.len() {
                    assert(text::text_le(a[i].account_id, a[j].account_id));
                } else {
                    let m = a.len() - 1;
                    let x = a[i].account_id;
                    let y = a[m].account_id;
                    if i < m {
                        assert(text::text_le(x, y));
                        text::lemma_text_le_transitive(x, y, item.account_id);
                        if x == item.account_id {
                            text::lemma_text_le_antisymmetric(x, y);
                        }
                    }
                }
            }
        }
    }
}

/// Of the names that are dates the last two are read, the later first; all of them where there
/// are no more than two.
pub proof fn law_last_two_dates_are_read(names: Seq<Seq<char>>)
    ensures
        newest(names).len() == if names.len() < 2 {
            names.len()
        } else {
            2
        },
        forall|i: int| 0 <= i < newest(names).len() ==> names.contains(#[trigger] newest(names)[i]),
        newest(names).len() == 2 ==> text::text_le(newest(names)[1], newest(names)[0]),
        forall|k: int|
            0 <= k < names.len() && !newest(names).contains(#[trigger] names[k]) ==> text::text_le(
                names[k],
                newest(names).last(),
            ),
{
    broadcast use vstd::seq_lib::group_to_multiset_ensures;

    let leq = |a: Seq<char>, b: Seq<char>| String::ordered(a, b);
    <String as Ranked>::lemma_ordered();
    names.lemma_sort_by_ensures(leq);
    let sorted = order::ascending::<String>(names);
    let n = sorted.len() as int;
    assert(sorted.to_multiset() == names.to_multiset());
    assert(sorted.len() == sorted.to_multiset().len());
    assert(names.len() == names.to_multiset().len());
    assert forall|i: int| 0 <= i < newest(names).len() implies names.contains(
        #[trigger] newest(names)[i],
    ) by {
        assert(newest(names)[i] == sorted[n - 1 - i]);
        assert(sorted.contains(sorted[n - 1 - i]));
        assert(sorted.to_multiset().count(sorted[n - 1 - i]) > 0);
    }
    if n >= 2 {
        assert(leq(sorted[n - 2], sorted[n - 1]));
        assert(newest(names)[0] == sorted[n - 1]);
        assert(newest(names)[1] == sorted[n - 2]);
    }
    assert forall|k: int|
        0 <= k < names.len() && !newest(names).contains(#[trigger] names[k]) implies text::text_le(
        names[k],
        newest(names).last(),
    ) by {
        assert(names.contains(names[k]));
        assert(names.to_multiset().count(names[k]) > 0);
        assert(sorted.contains(names[k]));
        let p = choose|p: int| 0 <= p < sorted.len() && sorted[p] == names[k];
        if n <= 2 {
            assert(newest(names)[n - 1 - p] == names[k]);
        } else {
            if p >= n - 2 {
                assert(newest(names)[n - 1 - p] == names[k]);
            }
            assert(leq(sorted[p], sorted[n - 2]));
        }
    }
}

/// A name is taken for a date where it is one, and in its place among the others.
pub proof fn law_every_date_is_taken(a: Seq<Seq<char>>, b: Seq<Seq<char>>, name: Seq<char>)
    ensures
        dates(a + b) == dates(a) + dates(b),
        dates(seq![name]) == if clock::is_date(name, "%Y-%m-%d"@) {
            seq![name]
        } else {
            seq![]
        },
    decreases b.len(),
{
    assert(seq![name].drop_last() =~= Seq::<Seq<char>>::empty());
    reveal_with_fuel(dates, 2);
    assert(Seq::<Seq<char>>::empty().push(name) =~= seq![name]);
    if b.len() == 0 {
        assert(a + b =~= a);
        assert(dates(a) + dates(b) =~= dates(a));
    } else {
        assert((a + b).drop_last() =~= a + b.drop_last());
        law_every_date_is_taken(a, b.drop_last(), name);
        if clock::is_date(b.last(), DATE_FORMAT@) {
            assert(dates(a) + dates(b) =~= (dates(a) + dates(b.drop_last())).push(b.last()));
        }
    }
}

/// The account of the edition that is found under a user id is the last that has it; none is found
/// where no account of the edition has it.
pub proof fn law_account_is_found_by_its_user(
    accounts: Seq<AccountView>,
    variant: WbVariant,
    uid: Seq<char>,
    id: Seq<char>,
    k: int,
)
    ensures
        0 <= k < accounts.len() && accounts[k] == (AccountView {
            id: Some(id),
            uid: Some(uid),
            variant,
        }) && (forall|j: int|
            k < j < accounts.len() && (#[trigger] accounts[j]).uid == Some(uid)
                && accounts[j].variant == variant ==> accounts[j].id is None) ==> accounts_by_uid(
            accounts,
            variant,
        ).contains_pair(uid, id),
        (forall|j: int|
            0 <= j < accounts.len() && (#[trigger] accounts[j]).uid == Some(uid)
                && accounts[j].variant == variant ==> accounts[j].id is None) ==> !accounts_by_uid(
            accounts,
            variant,
        ).contains_key(uid),
    decreases accounts.len(),
{
    if accounts.len() > 0 {
        let front = accounts.drop_last();
        let n = accounts.len() - 1;
        law_account_is_found_by_its_user(front, variant, uid, id, k);
        assert(accounts[n] == accounts.last());
        assert forall|j: int| 0 <= j < front.len() implies #[trigger] front[j] == accounts[j] by {}
    }
}

/// A session belongs to the account of the user in the last row that gives it a known one.
pub proof fn law_session_belongs_to_its_users_account(
    rows: Seq<(Option<Seq<char>>, Option<Seq<char>>)>,
    by_uid: Map<Seq<char>, Seq<char>>,
    session: Seq<char>,
    uid: Seq<char>,
    k: int,
)
    ensures
        0 <= k < rows.len() && rows[k] == (Some(session), Some(uid)) && by_uid.contains_key(uid) && (
        forall|j: int|
            k < j < rows.len() && (#[trigger] rows[j]).0 == Some(session) ==> rows[j].1 is None
                || !by_uid.contains_key(rows[j].1->0)) ==> accounts_by_session(
            rows,
            by_uid,
        ).contains_pair(session, by_uid[uid]),
        (forall|j: int|
            0 <= j < rows.len() && (#[trigger] rows[j]).0 == Some(session) ==> rows[j].1 is None
                || !by_uid.contains_key(rows[j].1->0)) ==> !accounts_by_session(
            rows,
            by_uid,
        ).contains_key(session),
    decreases rows.len(),
{
    if rows.len() > 0 {
        let front = rows.drop_last();
        let n = rows.len() - 1;
        law_session_belongs_to_its_users_account(front, by_uid, session, uid, k);
        assert(rows[n] == rows.last());
        assert forall|j: int| 0 <= j < front.len() implies #[trigger] front[j] == rows[j] by {}
    }
}

/// The query has a place for each session, and a comma between two.
pub proof fn law_query_has_a_place_for_each_session(n: nat)
    ensures
        n > 0 ==> placeholders(n).len() == 2 * n - 1,
        n == 0 ==> placeholders(n).len() == 0,
        forall|i: int|
            0 <= i < placeholders(n).len() ==> #[trigger] placeholders(n)[i] == if i % 2 == 0 {
                '?'
            } else {
                ','
            },
    decreases n,
{
    if n > 1 {
        law_query_has_a_place_for_each_session((n - 1) as nat);
    }
}

/// What is shown of the limits: the time, the two days that were read, and each account in its
/// place with its id and, for each model in its place, the model and its times and count.
pub proof fn law_limits_are_shown_as_they_are(items: Seq<ResolvedView>, now: i64)
    ensures
        ({
            let payload = payload_json(limited_now(items, now), now);
            let accounts = limited_now(items, now);
            &&& json::field(payload, "scannedAt"@) == Some(
                if now < 0 {
                    JsonView::Negative(now)
                } else {
                    JsonView::Unsigned(now as u64)
                },
            )
            &&& json::field(payload, "windowDays"@) == Some(JsonView::Unsigned(2))
            &&& json::field(payload, "accounts"@) matches Some(JsonView::Array(list)) && list.len()
                == accounts.len() && forall|k: int|
                0 <= k < list.len() ==> {
                    &&& json::field(#[trigger] list[k], "accountId"@) == Some(
                        JsonView::Text(accounts[k].account_id),
                    )
                    &&& json::field(list[k], "limited"@) matches Some(JsonView::Array(models))
                        && models.len() == accounts[k].limited.len() && forall|m: int|
                        0 <= m < models.len() ==> shows(
                            #[trigger] models[m],
                            accounts[k].limited[m],
                        )
                }
        }),
{
    lemma_payload_keys();
    let payload = payload_json(limited_now(items, now), now);
    let accounts = limited_now(items, now);
    let list = accounts.map_values(|a: AccountLimitsView| account_json(a));
    assert(json::field(payload, "accounts"@) == Some(JsonView::Array(list)));
    assert forall|k: int| 0 <= k < list.len() implies {
        &&& json::field(#[trigger] list[k], "accountId"@) == Some(
            JsonView::Text(accounts[k].account_id),
        )
        &&& json::field(list[k], "limited"@) matches Some(JsonView::Array(models)) && models.len()
            == accounts[k].limited.len() && forall|m: int|
            0 <= m < models.len() ==> shows(#[trigger] models[m], accounts[k].limited[m])
    } by {
        let models = accounts[k].limited.map_values(|i: ResolvedView| limited_json(i));
        assert(list[k] == account_json(accounts[k]));
        assert(json::field(list[k], "limited"@) == Some(JsonView::Array(models)));
        assert forall|m: int| 0 <= m < models.len() implies shows(
            #[trigger] models[m],
            accounts[k].limited[m],
        ) by {
            assert(models[m] == limited_json(accounts[k].limited[m]));
        }
    }
}

/// The value shows the refused model, its times and its count.
pub open spec fn shows(value: JsonView, item: ResolvedView) -> bool {
    &&& json::field(value, "model"@) == Some(
        match item.model {
            Some(m) => JsonView::Text(m),
            None => JsonView::Null,
        },
    )
    &&& json::field(value, "resetAt"@) == Some(
        if item.reset_at < 0 {
            JsonView::Negative(item.reset_at)
        } else {
            JsonView::Unsigned(item.reset_at as u64)
        },
    )
    &&& json::field(value, "firstSeenAt"@) == Some(
        if item.first_seen_at < 0 {
            JsonView::Negative(item.first_seen_at)
        } else {
            JsonView::Unsigned(item.first_seen_at as u64)
        },
    )
    &&& json::field(value, "hitCount"@) == Some(JsonView::Unsigned(item.hit_count as u64))
}

/// The names of what is shown differ from each other.
proof fn lemma_payload_keys()
    ensures
        "scannedAt"@ != "windowDays"@,
        "scannedAt"@ != "accounts"@,
        "windowDays"@ != "accounts"@,
        "accountId"@ != "limited"@,
        "model"@ != "resetAt"@,
        "model"@ != "firstSeenAt"@,
        "model"@ != "hitCount"@,
        "resetAt"@ != "firstSeenAt"@,
        "resetAt"@ != "hitCount"@,
        "firstSeenAt"@ != "hitCount"@,
{
    reveal_strlit("scannedAt");
    reveal_strlit("windowDays");
    reveal_strlit("accounts");
    reveal_strlit("accountId");
    reveal_strlit("limited");
    reveal_strlit("model");
    reveal_strlit("resetAt");
    reveal_strlit("firstSeenAt");
    reveal_strlit("hitCount");
    assert("scannedAt"@.len() == 9);
    assert("windowDays"@.len() == 10);
    assert("accounts"@.len() == 8);
    assert("accountId"@.len() == 9);
    assert("limited"@.len() == 7);
    assert("model"@.len() == 5);
    assert("resetAt"@.len() == 7);
    assert("firstSeenAt"@.len() == 11);
    assert("hitCount"@.len() == 8);

}

/// The sessions that are asked for are those of the events, each once and in order.
pub proof fn law_sessions_of_events_are_asked_for(
    events: Seq<EventView>,
    list: Seq<Seq<char>>,
    k: int,
    session: Seq<char>,
)
    requires
        strictly_ascending(list),
        forall|s: Seq<char>| list.contains(s) <==> has_session(events, s),
    ensures
        0 <= k < events.len() && events[k].session_id == Some(session) ==> list.contains(session),
        list.contains(session) ==> exists|i: int|
            0 <= i < events.len() && (#[trigger] events[i]).session_id == Some(session),
        list.no_duplicates(),
        0 <= k < list.len() - 1 ==> text::text_le(list[k], list[k + 1]),
{
    if 0 <= k < events.len() && events[k].session_id == Some(session) {
        assert(has_session(events, session));
        assert(list.contains(session));
    }
    if list.contains(session) {
        assert(has_session(events, session));
    }
    assert forall|i: int, j: int| 0 <= i < list.len() && 0 <= j < list.len() && i != j implies list[i]
        != list[j] by {
        if i < j {
            assert(text::text_le(list[i], list[j]));
        } else {
            assert(text::text_le(list[j], list[i]));
        }
    }
}

/// Refusals are in the order of their accounts; those of one account in the order in which they
/// end; and those that end at one time in the order of their models, one without a model first.
pub proof fn law_order_of_refusals(a: ResolvedView, b: ResolvedView)
    ensures
        a.account_id != b.account_id ==> resolved_le(a, b) == text::text_le(
            a.account_id,
            b.account_id,
        ),
        a.account_id == b.account_id && a.reset_at < b.reset_at ==> resolved_le(a, b)
            && !resolved_le(b, a),
        a.account_id == b.account_id && a.reset_at == b.reset_at && a.model != b.model
            ==> resolved_le(a, b) == match (a.model, b.model) {
            (None, _) => true,
            (Some(_), None) => false,
            (Some(s), Some(t)) => text::text_le(s, t),
        },
{
}

} // verus!
