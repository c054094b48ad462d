//! The history of the accounts that the command-line client was switched to.
//!
//! A process of the client keeps the key that it got at its start: whose key it holds is the
//! account that was in force then, which only this history can tell.

use vstd::prelude::*;

use crate::path::FilePath;
use crate::text;

verus! {

/// The name of the history file in the switcher's directory.
pub const HISTORY_FILE_NAME: &'static str = "cli_switch_history.jsonl";

/// Ninety days in milliseconds: longer than any process of the client lives.
pub const HISTORY_MAX_AGE_MS: i64 = 7_776_000_000;

/// The most records that are kept.
pub const HISTORY_MAX_ENTRIES: usize = 2000;

/// A switch: the account that came into force, and when.
#[derive(Clone, Debug, PartialEq, Eq)]
pub struct SwitchRecord {
    pub at: i64,
    pub account_id: String,
}

#[verifier::ext_equal]
pub struct RecordView {
    pub at: i64,
    pub account_id: Seq<char>,
}

impl SwitchRecord {
    pub open spec fn view(&self) -> RecordView {
        RecordView { at: self.at, account_id: self.account_id@ }
    }
}

pub open spec fn record_views(records: Seq<SwitchRecord>) -> Seq<RecordView> {
    records.map_values(|r: SwitchRecord| r@)
}

/// The path of the history file.
pub fn history_path(store_dir: &FilePath) -> (r: FilePath)
    ensures
        r@ == store_dir@.join(HISTORY_FILE_NAME@),
{
    store_dir.join(HISTORY_FILE_NAME)
}

/// The records with one more, behind those that are no later.
pub open spec fn insert_by_time(records: Seq<RecordView>, x: RecordView) -> Seq<RecordView>
    decreases records.len(),
{
    if records.len() == 0 || records.last().at <= x.at {
        records.push(x)
    } else {
        insert_by_time(records.drop_last(), x).push(records.last())
    }
}

/// The records by time, those of one time in their old order.
pub open spec fn by_time(records: Seq<RecordView>) -> Seq<RecordView>
    decreases records.len(),
{
    if records.len() == 0 {
        seq![]
    } else {
        insert_by_time(by_time(records.drop_last()), records.last())
    }
}

/// The records from `cutoff` on.
pub open spec fn since(records: Seq<RecordView>, cutoff: int) -> Seq<RecordView>
    decreases records.len(),
{
    if records.len() == 0 {
        seq![]
    } else if records.last().at >= cutoff {
        since(records.drop_last(), cutoff).push(records.last())
    } else {
        since(records.drop_last(), cutoff)
    }
}

/// The last records, as many as are kept.
pub open spec fn capped(records: Seq<RecordView>) -> Seq<RecordView> {
    if records.len() > HISTORY_MAX_ENTRIES {
        records.skip(records.len() - HISTORY_MAX_ENTRIES)
    } else {
        records
    }
}

/// The history after a switch to `account` at `at`; `None` where it stays as it is: there is no
/// account, or the last record is of the same.
pub open spec fn appended(
    records: Seq<RecordView>,
    account: Seq<char>,
    at: i64,
) -> Option<Seq<RecordView>> {
    let id = text::trim(account);
    if id.len() == 0 || (records.len() > 0 && records.last().account_id == id) {
        None
    } else {
        Some(
            capped(
                since(
                    by_time(records.push(RecordView { at, account_id: id })),
                    at - HISTORY_MAX_AGE_MS,
                ),
            ),
        )
    }
}

/// The record in force at `at`: the latest that is no later, of those of one time the last.
pub open spec fn in_force(records: Seq<RecordView>, at: i64) -> Option<RecordView>
    decreases records.len(),
{
    if records.len() == 0 {
        None
    } else {
        let before = in_force(records.drop_last(), at);
        let last = records.last();
        if last.at <= at && (before is None || before->0.at <= last.at) {
            Some(last)
        } else {
            before
        }
    }
}

/// The account in force at `at`.
pub open spec fn account_in_force(records: Seq<RecordView>, at: i64) -> Option<Seq<char>> {
    match in_force(records, at) {
        Some(r) => Some(r.account_id),
        None => None,
    }
}

/// The texts of the records in a history file: its lines, without white space around them.
pub fn record_lines(content: &str) -> (r: Vec<String>)
    ensures
        text::texts(r@) == text::text_lines(content@).map_values(|l: Seq<char>| text::trim(l)),
{
    let lines = text::lines_of(text::chars_of(content).as_slice());
    let ghost views = text::line_views(lines@);
    let mut out: Vec<String> = Vec::new();
    let mut i: usize = 0;
    while i < lines.len()
        invariant
            i <= lines@.len(),
            views == text::line_views(lines@),
            out@.len() == i,
            forall|j: int| 0 <= j < i ==> (#[trigger] out@[j])@ == text::trim(views[j]),
        decreases lines@.len() - i,
    {
        assert(views[i as int] == lines@[i as int]@);
        out.push(text::text_of(text::trimmed(lines[i].as_slice())));
        i += 1;
    }
    assert(text::texts(out@) =~= views.map_values(|l: Seq<char>| text::trim(l)));
    out
}

/// The content of a history file: the texts of the records, each ended by a line feed.
pub open spec fn lines_content(lines: Seq<Seq<char>>) -> Seq<char>
    decreases lines.len(),
{
    if lines.len() == 0 {
        seq![]
    } else {
        lines_content(lines.drop_last()) + lines.last().push('\n')
    }
}

pub fn history_content(lines: &Vec<String>) -> (r: String)
    ensures
        r@ == lines_content(text::texts(lines@)),
{
    let ghost views = text::texts(lines@);
    let mut out = String::new();
    let mut i: usize = 0;
    while i < lines.len()
        invariant
            i <= lines@.len(),
            views == text::texts(lines@),
            out@ == lines_content(views.take(i as int)),
        decreases lines@.len() - i,
    {
        assert(views.take(i + 1).drop_last() =~= views.take(i as int));
        out.append(lines[i].as_str());
        out.push('\n');
        assert(out@ =~= lines_content(views.take(i + 1)));
        i += 1;
    }
    assert(views.take(lines@.len() as int) =~= views);
    out
}

fn place(sorted: &mut Vec<SwitchRecord>, record: SwitchRecord)
    ensures
        record_views(final(sorted)@) == insert_by_time(record_views(old(sorted)@), record@),
{
    let ghost before = record_views(sorted@);
    let mut p: usize = sorted.len();
    assert(before.take(p as int) =~= before);
    assert(before.skip(p as int) =~= seq![]);
    assert(insert_by_time(before, record@) =~= insert_by_time(before.take(p as int), record@)
        + before.skip(p as int));
    while p > 0 && sorted[p - 1].at > record.at
        invariant
            p <= sorted@.len(),
            before == record_views(sorted@),
            insert_by_time(before, record@) == insert_by_time(before.take(p as int), record@)
                + before.skip(p as int),
        decreases p,
    {
        proof {
            let t = before.take(p as int);
            assert(t.last() == sorted@[p - 1]@);
            assert(t.drop_last() =~= before.take(p - 1));
            assert(insert_by_time(t.drop_last(), record@).push(t.last()) + before.skip(p as int)
                =~= insert_by_time(before.take(p - 1), record@) + before.skip(p - 1));
        }
        p -= 1;
    }
    proof {
        let t = before.take(p as int);
        if p > 0 {
            assert(t.last() == sorted@[p - 1]@);
        }
        assert(t.push(record@) + before.skip(p as int) =~= before.insert(p as int, record@));
    }
    sorted.insert(p, record);
    assert(record_views(sorted@) =~= before.insert(p as int, record@));
}

/// The history after a switch to `account_id` at `at`: by time, without what is older than ninety
/// days, and no longer than the latest two thousand records; `None` where nothing is to be
/// written.
///
/// Only a repetition at the end is left out: a switch to another account and back leaves a
/// record for each.
pub fn append(records: Vec<SwitchRecord>, account_id: &str, at: i64) -> (r: Option<
    Vec<SwitchRecord>,
>)
    ensures
        match r {
            Some(list) => appended(record_views(records@), account_id@, at) == Some(
                record_views(list@),
            ),
            None => appended(record_views(records@), account_id@, at) is None,
        },
{
    let ghost views = record_views(records@);
    let id = text::trimmed_text(account_id);
    if id.as_str().unicode_len() == 0 {
        return None;
    }
    let n: usize = records.len();
    if n > 0 {
        assert(views.last() == records@[n - 1]@);
        if text::same_text(records[n - 1].account_id.as_str(), id.as_str()) {
            return None;
        }
    }
    let record = SwitchRecord { at, account_id: id };
    let ghost x = record@;
    let mut all = records;
    all.push(record);
    let ghost full = views.push(x);
    assert(record_views(all@) =~= full);
    let sorted = sort_by_time(all);
    let recent = keep_since(sorted, at as i128 - HISTORY_MAX_AGE_MS as i128);
    Some(keep_last(recent))
}

fn sort_by_time(records: Vec<SwitchRecord>) -> (r: Vec<SwitchRecord>)
    ensures
        record_views(r@) == by_time(record_views(records@)),
{
    let ghost views = record_views(records@);
    let mut rest = records;
    let mut sorted: Vec<SwitchRecord> = Vec::new();
    let ghost mut n: int = 0;
    assert(record_views(sorted@) =~= seq![]);
    while rest.len() > 0
        invariant
            0 <= n <= views.len(),
            rest@.len() == views.len() - n,
            forall|j: int| 0 <= j < rest@.len() ==> #[trigger] rest@[j]@ == views[n + j],
            record_views(sorted@) == by_time(views.take(n)),
        decreases rest@.len(),
    {
        let ghost before = rest@;
        let record = rest.remove(0);
        proof {
            assert(before[0]@ == views[n]);
            assert(views.take(n + 1).drop_last() =~= views.take(n));
            assert forall|j: int| 0 <= j < rest@.len() implies #[trigger] rest@[j]@ == views[n + 1
                + j] by {
                assert(before[j + 1]@ == views[n + (j + 1)]);
            }
            n = n + 1;
        }
        place(&mut sorted, record);
    }
    assert(views.take(n) =~= views);
    sorted
}

fn keep_since(records: Vec<SwitchRecord>, cutoff: i128) -> (r: Vec<SwitchRecord>)
    ensures
        record_views(r@) == since(record_views(records@), cutoff as int),
{
    let ghost views = record_views(records@);
    let mut out: Vec<SwitchRecord> = Vec::new();
    let mut i: usize = 0;
    assert(record_views(out@) =~= seq![]);
    while i < records.len()
        invariant
            i <= records@.len(),
            views == record_views(records@),
            record_views(out@) == since(views.take(i as int), cutoff as int),
        decreases records@.len() - i,
    {
        let ghost before = record_views(out@);
        assert(views.take(i + 1).drop_last() =~= views.take(i as int));
        if records[i].at as i128 >= cutoff {
            let record = SwitchRecord {
                at: records[i].at,
                account_id: records[i].account_id.clone(),
            };
            out.push(record);
            assert(record_views(out@) =~= before.push(record@));
        }
        i += 1;
    }
    assert(views.take(records@.len() as int) =~= views);
    out
}

fn keep_last(records: Vec<SwitchRecord>) -> (r: Vec<SwitchRecord>)
    ensures
        record_views(r@) == capped(record_views(records@)),
{
    let mut list = records;
    let n: usize = list.len();
    if n <= HISTORY_MAX_ENTRIES {
        return list;
    }
    let last = list.split_off(n - HISTORY_MAX_ENTRIES);
    assert(record_views(last@) =~= record_views(records@).skip(n - HISTORY_MAX_ENTRIES));
    last
}

/// The account in force at `at`, by time and not by the order in the file; `None` where no
/// record is that early.
pub fn account_at(records: &Vec<SwitchRecord>, at: i64) -> (r: Option<String>)
    ensures
        text::opt_text(r) == account_in_force(record_views(records@), at),
{
    let ghost views = record_views(records@);
    let mut best: Option<usize> = None;
    let mut i: usize = 0;
    while i < records.len()
        invariant
            i <= records@.len(),
            views == record_views(records@),
            match best {
                Some(k) => k < i && in_force(views.take(i as int), at) == Some(views[k as int]),
                None => in_force(views.take(i as int), at) is None,
            },
        decreases records@.len() - i,
    {
        assert(views.take(i + 1).drop_last() =~= views.take(i as int));
        if records[i].at <= at {
            match best {
                Some(k) => {
                    if records[k].at <= records[i].at {
                        best = Some(i);
                    }
                },
                None => {
                    best = Some(i);
                },
            }
        }
        i += 1;
    }
    assert(views.take(records@.len() as int) =~= views);
    match best {
        Some(k) => Some(records[k].account_id.clone()),
        None => None,
    }
}

// ---------------------------------------------------------------------------
// Laws
// ---------------------------------------------------------------------------

pub open spec fn in_time_order(records: Seq<RecordView>) -> bool {
    forall|i: int, j: int|
        0 <= i < j < records.len() ==> (#[trigger] records[i]).at <= (#[trigger] records[j]).at
}

/// The number of records later than `at`.
pub open spec fn later_than(records: Seq<RecordView>, at: i64) -> nat
    decreases records.len(),
{
    if records.len() == 0 {
        0
    } else {
        later_than(records.drop_last(), at) + if records.last().at > at {
            1nat
        } else {
            0nat
        }
    }
}

/// Where a record goes among ordered ones: behind `p` records that are no later, before the
/// rest, which is later.
proof fn lemma_insert_by_time(records: Seq<RecordView>, x: RecordView) -> (p: int)
    requires
        in_time_order(records),
    ensures
        0 <= p <= records.len(),
        insert_by_time(records, x) == records.take(p) + seq![x] + records.skip(p),
        forall|i: int| 0 <= i < p ==> (#[trigger] records[i]).at <= x.at,
        forall|i: int| p <= i < records.len() ==> (#[trigger] records[i]).at > x.at,
    decreases records.len(),
{
    if records.len() == 0 || records.last().at <= x.at {
        let p = records.len() as int;
        assert(insert_by_time(records, x) =~= records.take(p) + seq![x] + records.skip(p));
        assert forall|i: int| 0 <= i < p implies (#[trigger] records[i]).at <= x.at by {
            if i < p - 1 {
                assert(records[i].at <= records[p - 1].at);
            }
        }
        p
    } else {
        let front = records.drop_last();
        assert forall|i: int, j: int| 0 <= i < j < front.len() implies (#[trigger] front[i]).at <= (
        #[trigger] front[j]).at by {
            assert(records[i].at <= records[j].at);
        }
        let p = lemma_insert_by_time(front, x);
        assert forall|i: int| 0 <= i < p implies (#[trigger] records[i]).at <= x.at by {
            assert(front[i] == records[i]);
        }
        assert forall|i: int| p <= i < records.len() implies (#[trigger] records[i]).at > x.at by {
            if i < front.len() {
                assert(front[i] == records[i]);
            }
        }
        assert((front.take(p) + seq![x] + front.skip(p)).push(records.last()) =~= records.take(p)
            + seq![x] + records.skip(p));
        p
    }
}

proof fn lemma_by_time_ordered(records: Seq<RecordView>)
    ensures
        in_time_order(by_time(records)),
    decreases records.len(),
{
    if records.len() > 0 {
        let front = by_time(records.drop_last());
        lemma_by_time_ordered(records.drop_last());
        let x = records.last();
        let p = lemma_insert_by_time(front, x);
        let all = by_time(records);
        assert forall|i: int, j: int| 0 <= i < j < all.len() implies (#[trigger] all[i]).at <= (
        #[trigger] all[j]).at by {
            let a = if i < p { i } else { i - 1 };
            let b = if j < p { j } else { j - 1 };
            if i != p {
                assert(all[i] == front[a]);
            }
            if j != p {
                assert(all[j] == front[b]);
            }
        }
    }
}

proof fn lemma_later_split(a: Seq<RecordView>, b: Seq<RecordView>, at: i64)
    ensures
        later_than(a + b, at) == later_than(a, at) + later_than(b, at),
    decreases b.len(),
{
    if b.len() == 0 {
        assert(a + b =~= a);
    } else {
        assert((a + b).drop_last() =~= a + b.drop_last());
        lemma_later_split(a, b.drop_last(), at);
    }
}

proof fn lemma_later_one(x: RecordView, at: i64)
    ensures
        later_than(seq![x], at) == if x.at > at {
            1nat
        } else {
            0nat
        },
{
    reveal_with_fuel(later_than, 2);
    assert(seq![x].last() == x);
}

proof fn lemma_later_by_time(records: Seq<RecordView>, at: i64)
    ensures
        later_than(by_time(records), at) == later_than(records, at),
    decreases records.len(),
{
    if records.len() > 0 {
        let front = by_time(records.drop_last());
        let x = records.last();
        lemma_later_by_time(records.drop_last(), at);
        lemma_by_time_ordered(records.drop_last());
        let p = lemma_insert_by_time(front, x);
        lemma_later_split(front.take(p) + seq![x], front.skip(p), at);
        lemma_later_split(front.take(p), seq![x], at);
        lemma_later_split(front.take(p), front.skip(p), at);
        lemma_later_one(x, at);
        assert(front.take(p) + front.skip(p) =~= front);
    }
}

proof fn lemma_all_later(records: Seq<RecordView>, at: i64)
    requires
        forall|i: int| 0 <= i < records.len() ==> (#[trigger] records[i]).at > at,
    ensures
        later_than(records, at) == records.len(),
    decreases records.len(),
{
    if records.len() > 0 {
        assert forall|i: int| 0 <= i < records.drop_last().len() implies (
        #[trigger] records.drop_last()[i]).at > at by {
            assert(records.drop_last()[i] == records[i]);
        }
        lemma_all_later(records.drop_last(), at);
        assert(records[records.len() - 1].at > at);
    }
}

proof fn lemma_since(records: Seq<RecordView>, cutoff: int)
    ensures
        forall|i: int|
            0 <= i < since(records, cutoff).len() ==> (#[trigger] since(records, cutoff)[i]).at
                >= cutoff && records.contains(since(records, cutoff)[i]),
        in_time_order(records) ==> in_time_order(since(records, cutoff)),
    decreases records.len(),
{
    if records.len() > 0 {
        let front = records.drop_last();
        lemma_since(front, cutoff);
        let kept = since(front, cutoff);
        let all = since(records, cutoff);
        assert forall|i: int| 0 <= i < all.len() implies (#[trigger] all[i]).at >= cutoff
            && records.contains(all[i]) by {
            if i < kept.len() {
                let m = choose|m: int| 0 <= m < front.len() && front[m] == kept[i];
                assert(records[m] == all[i]);
            } else {
                assert(records[records.len() - 1] == all[i]);
            }
        }
        if in_time_order(records) {
            assert forall|i: int, j: int| 0 <= i < j < front.len() implies (#[trigger] front[i]).at
                <= (#[trigger] front[j]).at by {
                assert(records[i].at <= records[j].at);
            }
            assert forall|i: int, j: int| 0 <= i < j < all.len() implies (#[trigger] all[i]).at
                <= (#[trigger] all[j]).at by {
                if j < kept.len() {
                    assert(kept[i].at <= kept[j].at);
                } else {
                    let m = choose|m: int| 0 <= m < front.len() && front[m] == kept[i];
                    assert(records[m].at <= records[records.len() - 1].at);
                }
            }
        }
    }
}

proof fn lemma_since_split(a: Seq<RecordView>, b: Seq<RecordView>, cutoff: int)
    ensures
        since(a + b, cutoff) == since(a, cutoff) + since(b, cutoff),
    decreases b.len(),
{
    if b.len() == 0 {
        assert(a + b =~= a);
        assert(since(a, cutoff) + since(b, cutoff) =~= since(a, cutoff));
    } else {
        assert((a + b).drop_last() =~= a + b.drop_last());
        lemma_since_split(a, b.drop_last(), cutoff);
        assert(since(a + b, cutoff) =~= since(a, cutoff) + since(b, cutoff));
    }
}

proof fn lemma_since_all(records: Seq<RecordView>, cutoff: int)
    requires
        forall|i: int| 0 <= i < records.len() ==> (#[trigger] records[i]).at >= cutoff,
    ensures
        since(records, cutoff) == records,
    decreases records.len(),
{
    if records.len() > 0 {
        assert forall|i: int| 0 <= i < records.drop_last().len() implies (
        #[trigger] records.drop_last()[i]).at >= cutoff by {
            assert(records.drop_last()[i] == records[i]);
        }
        lemma_since_all(records.drop_last(), cutoff);
        assert(records[records.len() - 1].at >= cutoff);
        assert(records.drop_last().push(records.last()) =~= records);
    }
}

/// What comes after a record and is later than `t` does not matter at `t`.
proof fn lemma_in_force_at(a: Seq<RecordView>, x: RecordView, b: Seq<RecordView>, t: i64)
    requires
        x.at <= t,
        forall|i: int| 0 <= i < a.len() ==> (#[trigger] a[i]).at <= x.at,
        forall|i: int| 0 <= i < b.len() ==> (#[trigger] b[i]).at > t,
    ensures
        in_force(a + seq![x] + b, t) == Some(x),
    decreases b.len(),
{
    if b.len() == 0 {
        assert(a + seq![x] + b =~= a.push(x));
        assert(a.push(x).drop_last() =~= a);
        lemma_in_force_bound(a, x.at, t);
    } else {
        assert((a + seq![x] + b).drop_last() =~= a + seq![x] + b.drop_last());
        assert((a + seq![x] + b).last() == b[b.len() - 1]);
        assert forall|i: int| 0 <= i < b.drop_last().len() implies (#[trigger] b.drop_last()[i]).at
            > t by {
            assert(b.drop_last()[i] == b[i]);
        }
        lemma_in_force_at(a, x, b.drop_last(), t);
    }
}

proof fn lemma_in_force_bound(records: Seq<RecordView>, bound: i64, t: i64)
    requires
        forall|i: int| 0 <= i < records.len() ==> (#[trigger] records[i]).at <= bound,
    ensures
        in_force(records, t) matches Some(r) ==> r.at <= bound,
    decreases records.len(),
{
    if records.len() > 0 {
        assert forall|i: int| 0 <= i < records.drop_last().len() implies (
        #[trigger] records.drop_last()[i]).at <= bound by {
            assert(records.drop_last()[i] == records[i]);
        }
        lemma_in_force_bound(records.drop_last(), bound, t);
        assert(records[records.len() - 1].at <= bound);
    }
}

/// The shape of the history after a switch: what is no later, the switch, what is later.
proof fn lemma_appended(records: Seq<RecordView>, account: Seq<char>, at: i64) -> (r: (
    Seq<RecordView>,
    Seq<RecordView>,
))
    requires
        appended(records, account, at) is Some,
        later_than(records, at) < HISTORY_MAX_ENTRIES,
    ensures
        appended(records, account, at) == Some(
            r.0 + seq![RecordView { at, account_id: text::trim(account) }] + r.1,
        ),
        forall|i: int| 0 <= i < r.0.len() ==> (#[trigger] r.0[i]).at <= at,
        forall|i: int|
            0 <= i < r.1.len() ==> (#[trigger] r.1[i]).at > at && by_time(records).contains(r.1[i]),
        r.1.len() == later_than(records, at),
{
    let x = RecordView { at, account_id: text::trim(account) };
    let sorted = by_time(records);
    let cutoff = at - HISTORY_MAX_AGE_MS;
    assert(records.push(x).drop_last() =~= records);
    lemma_by_time_ordered(records);
    let p = lemma_insert_by_time(sorted, x);
    let a = sorted.take(p);
    let b = sorted.skip(p);
    lemma_later_by_time(records, at);
    lemma_later_split(a, b, at);
    assert(a + b =~= sorted);
    assert forall|i: int| 0 <= i < b.len() implies (#[trigger] b[i]).at > at && sorted.contains(
        b[i],
    ) by {
        assert(sorted[p + i] == b[i]);
    }
    lemma_all_later(b, at);
    lemma_none_later(a, at);
    lemma_since_split(a + seq![x], b, cutoff);
    lemma_since_split(a, seq![x], cutoff);
    lemma_since_all(seq![x], cutoff);
    lemma_since_all(b, cutoff);
    lemma_since(a, cutoff);
    let front = since(a, cutoff);
    assert forall|i: int| 0 <= i < front.len() implies (#[trigger] front[i]).at <= at by {
        let m = choose|m: int| 0 <= m < a.len() && a[m] == front[i];
        assert(sorted[m] == front[i]);
    }
    let kept = front + seq![x] + b;
    let n = kept.len();
    if n > HISTORY_MAX_ENTRIES {
        let cut = n - HISTORY_MAX_ENTRIES;
        assert(cut <= front.len());
        let rest = front.skip(cut);
        assert(kept.skip(cut) =~= rest + seq![x] + b);
        assert forall|i: int| 0 <= i < rest.len() implies (#[trigger] rest[i]).at <= at by {
            assert(front[cut + i] == rest[i]);
        }
        (rest, b)
    } else {
        (front, b)
    }
}

proof fn lemma_none_later(records: Seq<RecordView>, at: i64)
    requires
        forall|i: int| 0 <= i < records.len() ==> (#[trigger] records[i]).at <= at,
    ensures
        later_than(records, at) == 0,
    decreases records.len(),
{
    if records.len() > 0 {
        assert forall|i: int| 0 <= i < records.drop_last().len() implies (
        #[trigger] records.drop_last()[i]).at <= at by {
            assert(records.drop_last()[i] == records[i]);
        }
        lemma_none_later(records.drop_last(), at);
        assert(records[records.len() - 1].at <= at);
    }
}

proof fn lemma_by_time_contains(records: Seq<RecordView>, r: RecordView)
    requires
        by_time(records).contains(r),
    ensures
        records.contains(r),
    decreases records.len(),
{
    if records.len() > 0 {
        let front = by_time(records.drop_last());
        let x = records.last();
        lemma_by_time_ordered(records.drop_last());
        let p = lemma_insert_by_time(front, x);
        let all = by_time(records);
        let k = choose|k: int| 0 <= k < all.len() && all[k] == r;
        if k == p {
            assert(records[records.len() - 1] == r);
        } else {
            let m = if k < p { k } else { k - 1 };
            assert(front[m] == r);
            lemma_by_time_contains(records.drop_last(), r);
            let i = choose|i: int| 0 <= i < records.drop_last().len() && records.drop_last()[i] == r;
            assert(records[i] == r);
        }
    }
}

/// After a switch, the account is the one in force from then until the next switch on record.
/// (With two thousand records from a later time on, the switch itself is not kept.)
pub proof fn law_switch_is_in_force(
    records: Seq<RecordView>,
    account: Seq<char>,
    at: i64,
    t: i64,
)
    requires
        appended(records, account, at) is Some,
        later_than(records, at) < HISTORY_MAX_ENTRIES,
        at <= t,
        forall|i: int| 0 <= i < records.len() ==> !(at < (#[trigger] records[i]).at <= t),
    ensures
        account_in_force(appended(records, account, at)->0, t) == Some(text::trim(account)),
{
    let x = RecordView { at, account_id: text::trim(account) };
    let (a, b) = lemma_appended(records, account, at);
    assert forall|i: int| 0 <= i < b.len() implies (#[trigger] b[i]).at > t by {
        lemma_by_time_contains(records, b[i]);
        let k = choose|k: int| 0 <= k < records.len() && records[k] == b[i];
        assert(!(at < records[k].at <= t));
    }
    lemma_in_force_at(a, x, b, t);
}

/// A second switch to the same account, with no later record, changes nothing.
pub proof fn law_repeated_switch_is_not_recorded(
    records: Seq<RecordView>,
    account: Seq<char>,
    at: i64,
    again: i64,
)
    requires
        appended(records, account, at) is Some,
        later_than(records, at) == 0,
    ensures
        appended(appended(records, account, at)->0, account, again) is None,
{
    let (a, b) = lemma_appended(records, account, at);
    assert(b =~= seq![]);
    let all = appended(records, account, at)->0;
    assert(all.last() == RecordView { at, account_id: text::trim(account) });
}

/// The history stays in the order of time, within ninety days and within its greatest length.
pub proof fn law_history_is_bounded(records: Seq<RecordView>, account: Seq<char>, at: i64)
    requires
        appended(records, account, at) is Some,
    ensures
        appended(records, account, at)->0.len() <= HISTORY_MAX_ENTRIES,
        in_time_order(appended(records, account, at)->0),
        forall|i: int|
            0 <= i < appended(records, account, at)->0.len() ==> (#[trigger] appended(
                records,
                account,
                at,
            )->0[i]).at >= at - HISTORY_MAX_AGE_MS,
{
    let x = RecordView { at, account_id: text::trim(account) };
    let sorted = by_time(records.push(x));
    let kept = since(sorted, at - HISTORY_MAX_AGE_MS);
    lemma_by_time_ordered(records.push(x));
    lemma_since(sorted, at - HISTORY_MAX_AGE_MS);
    let all = appended(records, account, at)->0;
    let cut = if kept.len() > HISTORY_MAX_ENTRIES {
        kept.len() - HISTORY_MAX_ENTRIES
    } else {
        0
    };
    assert forall|i: int, j: int| 0 <= i < j < all.len() implies (#[trigger] all[i]).at <= (
    #[trigger] all[j]).at by {
        assert(all[i] == kept[cut + i]);
        assert(all[j] == kept[cut + j]);
    }
    assert forall|i: int| 0 <= i < all.len() implies (#[trigger] all[i]).at >= at
        - HISTORY_MAX_AGE_MS by {
        assert(all[i] == kept[cut + i]);
    }
}

/// The account in force at a time is that of the latest record that is no later, of those of one
/// time the last; there is none where every record is later.
pub proof fn law_latest_record_is_in_force(records: Seq<RecordView>, t: i64, k: int)
    ensures
        0 <= k < records.len() && records[k].at <= t && (forall|j: int|
            0 <= j < records.len() && (#[trigger] records[j]).at <= t ==> records[j].at
                < records[k].at || (j <= k && records[j].at == records[k].at)) ==> account_in_force(
            records,
            t,
        ) == Some(records[k].account_id),
        (forall|j: int| 0 <= j < records.len() ==> (#[trigger] records[j]).at > t)
            ==> account_in_force(records, t) is None,
{
    lemma_in_force_exact(records, t, k);
}

proof fn lemma_in_force_exact(records: Seq<RecordView>, t: i64, k: int)
    ensures
        0 <= k < records.len() && records[k].at <= t && (forall|j: int|
            0 <= j < records.len() && (#[trigger] records[j]).at <= t ==> records[j].at
                < records[k].at || (j <= k && records[j].at == records[k].at)) ==> in_force(
            records,
            t,
        ) == Some(records[k]),
        (forall|j: int| 0 <= j < records.len() ==> (#[trigger] records[j]).at > t) ==> in_force(
            records,
            t,
        ) is None,
        in_force(records, t) matches Some(r) ==> r.at <= t && records.contains(r),
    decreases records.len(),
{
    if records.len() > 0 {
        let front = records.drop_last();
        let n = records.len() - 1;
        assert forall|j: int| 0 <= j < front.len() implies #[trigger] front[j] == records[j] by {}
        lemma_in_force_exact(front, t, k);
        assert(records[n] == records.last());
        if in_force(front, t) is Some {
            let i = choose|i: int| 0 <= i < front.len() && front[i] == in_force(front, t)->0;
            assert(records[i] == front[i]);
        }
    }
}

/// A switch is recorded wherever an account is named that is not the last record's, and nowhere
/// else.
pub proof fn law_every_other_switch_is_recorded(
    records: Seq<RecordView>,
    account: Seq<char>,
    at: i64,
)
    ensures
        appended(records, account, at) is Some <==> text::trim(account).len() > 0 && (records.len()
            == 0 || records.last().account_id != text::trim(account)),
{
}

/// The history holds the records of the last ninety days and the new one, each as it is; only
/// where they are more than two thousand does it leave out some, and then none that is later than
/// one it holds.
pub proof fn law_recent_records_are_kept(
    records: Seq<RecordView>,
    account: Seq<char>,
    at: i64,
    r: RecordView,
)
    requires
        appended(records, account, at) is Some,
    ensures
        ({
            let kept = appended(records, account, at)->0;
            let new = RecordView { at, account_id: text::trim(account) };
            let recent = (records.contains(r) || r == new) && r.at >= at - 7_776_000_000;
            &&& kept.len() <= 2000
            &&& kept.contains(r) ==> recent
            &&& recent && records.len() < 2000 ==> kept.contains(r)
            &&& recent && !kept.contains(r) ==> kept.len() == 2000 && forall|i: int|
                0 <= i < kept.len() ==> r.at <= (#[trigger] kept[i]).at
        }),
{
    let new = RecordView { at, account_id: text::trim(account) };
    let sorted = by_time(records.push(new));
    let cutoff = at - 7_776_000_000;
    let all = since(sorted, cutoff);
    let kept = appended(records, account, at)->0;
    let cut = if all.len() > 2000 {
        all.len() - 2000
    } else {
        0
    };
    lemma_by_time_ordered(records.push(new));
    lemma_by_time_holds(records.push(new));
    lemma_since(sorted, cutoff);
    lemma_since_holds(sorted, cutoff, r);
    assert(kept =~= all.skip(cut));
    if records.contains(r) {
        let i = choose|i: int| 0 <= i < records.len() && records[i] == r;
        assert(records.push(new)[i] == r);
        assert(sorted.contains(r));
    }
    if r == new {
        assert(records.push(new)[records.len() as int] == r);
        assert(sorted.contains(r));
    }
    if kept.contains(r) {
        let i = choose|i: int| 0 <= i < kept.len() && kept[i] == r;
        assert(all[i + cut] == r);
        assert(sorted.contains(r));
        lemma_by_time_contains(records.push(new), r);
        let m = choose|m: int| 0 <= m < records.push(new).len() && records.push(new)[m] == r;
        if m < records.len() {
            assert(records[m] == r);
        }
    }
    if sorted.contains(r) && r.at >= cutoff {
        let p = choose|p: int| 0 <= p < all.len() && all[p] == r;
        if p >= cut {
            assert(kept[p - cut] == r);
        } else {
            assert forall|i: int| 0 <= i < kept.len() implies r.at <= (#[trigger] kept[i]).at by {
                assert(kept[i] == all[i + cut]);
                assert(all[p].at <= all[i + cut].at);
            }
        }
    }
}

/// A switch leaves the past as it was: the account that was in force at an earlier time still is,
/// as long as its record is of the last ninety days and the history has room.
pub proof fn law_switch_leaves_the_past(
    records: Seq<RecordView>,
    account: Seq<char>,
    at: i64,
    t: i64,
    k: int,
)
    requires
        appended(records, account, at) is Some,
        records.len() < 2000,
        t < at,
        0 <= k < records.len(),
        at - 7_776_000_000 <= records[k].at <= t,
        forall|j: int|
            0 <= j < records.len() && (#[trigger] records[j]).at <= t ==> records[j].at
                < records[k].at || (j <= k && records[j].at == records[k].at),
    ensures
        account_in_force(appended(records, account, at)->0, t) == Some(records[k].account_id),
{
    let new = RecordView { at, account_id: text::trim(account) };
    let more = records.push(new);
    let cutoff = at - 7_776_000_000;
    lemma_in_force_exact(records, t, k);
    assert(more.drop_last() =~= records);
    assert(in_force(more, t) == in_force(records, t));
    lemma_by_time_in_force(more, t);
    lemma_by_time_holds(more);
    lemma_since_in_force(by_time(more), cutoff, t);
    lemma_since_holds(by_time(more), cutoff, new);
}

proof fn lemma_by_time_holds(records: Seq<RecordView>)
    ensures
        by_time(records).len() == records.len(),
        forall|i: int| 0 <= i < records.len() ==> by_time(records).contains(#[trigger] records[i]),
    decreases records.len(),
{
    if records.len() > 0 {
        let rest = records.drop_last();
        let front = by_time(rest);
        let x = records.last();
        lemma_by_time_holds(rest);
        lemma_by_time_ordered(rest);
        let p = lemma_insert_by_time(front, x);
        let all = by_time(records);
        assert forall|i: int| 0 <= i < records.len() implies all.contains(#[trigger] records[i]) by {
            if i < rest.len() {
                assert(rest[i] == records[i]);
                let m = choose|m: int| 0 <= m < front.len() && front[m] == records[i];
                if m < p {
                    assert(all[m] == records[i]);
                } else {
                    assert(all[m + 1] == records[i]);
                }
            } else {
                assert(all[p] == x);
            }
        }
    }
}

proof fn lemma_since_holds(records: Seq<RecordView>, cutoff: int, r: RecordView)
    ensures
        since(records, cutoff).len() <= records.len(),
        records.contains(r) && r.at >= cutoff ==> since(records, cutoff).contains(r),
    decreases records.len(),
{
    if records.len() > 0 {
        let front = records.drop_last();
        let kept = since(front, cutoff);
        let all = since(records, cutoff);
        lemma_since_holds(front, cutoff, r);
        if records.contains(r) && r.at >= cutoff {
            let i = choose|i: int| 0 <= i < records.len() && records[i] == r;
            if i < front.len() {
                assert(front[i] == r);
                let m = choose|m: int| 0 <= m < kept.len() && kept[m] == r;
                assert(all[m] == r);
            } else {
                assert(all[kept.len() as int] == r);
            }
        }
    }
}

proof fn lemma_in_force_inserted(records: Seq<RecordView>, x: RecordView, t: i64)
    requires
        in_time_order(records),
    ensures
        in_force(insert_by_time(records, x), t) == in_force(records.push(x), t),
    decreases records.len(),
{
    reveal_with_fuel(in_force, 3);
    if records.len() > 0 && records.last().at > x.at {
        let front = records.drop_last();
        let last = records.last();
        assert forall|i: int, j: int| 0 <= i < j < front.len() implies (#[trigger] front[i]).at <= (
        #[trigger] front[j]).at by {
            assert(records[i].at <= records[j].at);
        }
        lemma_in_force_inserted(front, x, t);
        lemma_in_force_exact(front, t, 0);
        let all = insert_by_time(records, x);
        assert(all.drop_last() =~= insert_by_time(front, x));
        assert(records.push(x).drop_last() =~= records);
        assert(front.push(x).drop_last() =~= front);
        if in_force(front, t) is Some {
            let i = choose|i: int| 0 <= i < front.len() && front[i] == in_force(front, t)->0;
            assert(records[i].at <= records[records.len() - 1].at);
        }
    }
}

proof fn lemma_by_time_in_force(records: Seq<RecordView>, t: i64)
    ensures
        in_force(by_time(records), t) == in_force(records, t),
    decreases records.len(),
{
    if records.len() > 0 {
        let front = records.drop_last();
        lemma_by_time_in_force(front, t);
        lemma_by_time_ordered(front);
        lemma_in_force_inserted(by_time(front), records.last(), t);
        assert(by_time(front).push(records.last()).drop_last() =~= by_time(front));
    }
}

proof fn lemma_since_in_force(records: Seq<RecordView>, cutoff: int, t: i64)
    ensures
        match in_force(records, t) {
            Some(r) => in_force(since(records, cutoff), t) == if r.at >= cutoff {
                Some(r)
            } else {
                None
            },
            None => in_force(since(records, cutoff), t) is None,
        },
    decreases records.len(),
{
    if records.len() > 0 {
        let front = records.drop_last();
        lemma_since_in_force(front, cutoff, t);
        if records.last().at >= cutoff {
            assert(since(records, cutoff).drop_last() =~= since(front, cutoff));
        }
    }
}

/// A file holds its lines one after the other, each ended by a line feed.
pub proof fn law_lines_are_written_one_after_the_other(
    a: Seq<Seq<char>>,
    b: Seq<Seq<char>>,
    line: Seq<char>,
)
    ensures
        lines_content(a + b) == lines_content(a) + lines_content(b),
        lines_content(seq![line]) == line.push('\n'),
    decreases b.len(),
{
    assert(seq![line].drop_last() =~= Seq::<Seq<char>>::empty());
    reveal_with_fuel(lines_content, 2);
    assert(Seq::<char>::empty() + line.push('\n') =~= line.push('\n'));
    if b.len() == 0 {
        assert(a + b =~= a);
        assert(lines_content(a) + lines_content(b) =~= lines_content(a));
    } else {
        assert((a + b).drop_last() =~= a + b.drop_last());
        law_lines_are_written_one_after_the_other(a, b.drop_last(), line);
        assert(lines_content(a) + lines_content(b) =~= lines_content(a) + lines_content(
            b.drop_last(),
        ) + b.last().push('\n'));
    }
}

} // verus!
