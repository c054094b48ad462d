//! What the files around the copying of sessions hold: bodies, the store of links, and the
//! records of copies that are done.

use vstd::prelude::*;

use crate::json;
use crate::session_link::operation_views;
use crate::session_link::unfinished;
use crate::session_link::ContentState;
use crate::session_link::ContentStateView;
use crate::session_link::ContentView;
use crate::session_link::LinkStore;
use crate::session_link::NormalizedContent;
use crate::session_link::OpPhase;
use crate::session_link::Operation;
use crate::session_link::OperationView;
use crate::session_link::StoreState;
use crate::session_link::StoreStateView;
use crate::session_link::StoreView;
use crate::session_link::STORE_VERSION;
use crate::text;
use crate::variant::WbVariant;

verus! {

// ---------------------------------------------------------------------------
// Bodies
// ---------------------------------------------------------------------------

/// What stands for a line when bodies are compared: the line without the session's own id.
pub open spec fn line_digest(line: Seq<char>, session_id: Seq<char>) -> Seq<char> {
    text::replaced(line, session_id, seq![])
}

pub open spec fn line_digests(lines: Seq<Seq<char>>, session_id: Seq<char>) -> Seq<Seq<char>> {
    lines.map_values(|l: Seq<char>| line_digest(l, session_id))
}

/// Each line is a JSON value.
pub open spec fn are_records(lines: Seq<Seq<char>>) -> bool {
    forall|i: int| 0 <= i < lines.len() ==> json::parsed(#[trigger] lines[i]) is Some
}

/// What a body holds: one record on each line that is not blank.
pub open spec fn content(body: Seq<char>, session_id: Seq<char>) -> ContentStateView {
    let lines = text::filled(text::text_lines(body));
    if are_records(lines) {
        let digests = line_digests(lines, session_id);
        ContentStateView::Ready(
            ContentView {
                total_digest: text::joined(digests, "\n"@),
                record_count: digests.len() as u64,
                line_digests: digests,
            },
        )
    } else {
        ContentStateView::Unavailable("正文含有无法解析的行"@)
    }
}

/// What the body of a session holds, given its text; without one it is missing.
pub fn content_of(body: &Option<String>, session_id: &str) -> (r: ContentState)
    ensures
        r@ == match text::opt_text(*body) {
            Some(t) => content(t, session_id@),
            None => ContentStateView::Missing,
        },
{
    let lines = match body {
        Some(t) => text::filled_lines(t.as_str()),
        None => {
            return ContentState::Missing;
        },
    };
    let ghost views = text::texts(lines@);
    let mut digests: Vec<String> = Vec::new();
    let mut i: usize = 0;
    while i < lines.len()
        invariant
            i <= lines@.len(),
            views == text::texts(lines@),
            text::opt_text(*body) matches Some(t) && views == text::filled(text::text_lines(t)),
            forall|j: int| 0 <= j < i ==> json::parsed(#[trigger] views[j]) is Some,
            digests@.len() == i,
            forall|j: int|
                0 <= j < i ==> (#[trigger] digests@[j])@ == line_digest(views[j], session_id@),
        decreases lines@.len() - i,
    {
        assert(views[i as int] == lines@[i as int]@);
        if json::parse_json(lines[i].as_str()).is_none() {
            assert(!are_records(views));
            return ContentState::Unavailable("正文含有无法解析的行".to_owned());
        }
        proof {
            reveal_strlit("");
            assert(""@ =~= seq![]);
        }
        digests.push(text::replace_text(lines[i].as_str(), session_id, ""));
        i += 1;
    }
    assert(text::texts(digests@) =~= line_digests(views, session_id@));
    let total = text::join_texts(&digests, "\n");
    let n: usize = digests.len();
    ContentState::Ready(
        NormalizedContent { total_digest: total, record_count: n as u64, line_digests: digests },
    )
}

// ---------------------------------------------------------------------------
// The store of links
// ---------------------------------------------------------------------------

/// What the file of the store holds.
pub enum StoreFile {
    Absent,
    /// Nothing that can be read.
    Broken,
    Held(LinkStore),
}

#[verifier::ext_equal]
pub enum StoreFileView {
    Absent,
    Broken,
    Held(StoreView),
}

impl StoreFile {
    pub open spec fn view(&self) -> StoreFileView {
        match self {
            StoreFile::Absent => StoreFileView::Absent,
            StoreFile::Broken => StoreFileView::Broken,
            StoreFile::Held(s) => StoreFileView::Held(s@),
        }
    }
}

/// The state of the store: a file that is gone while baselines or unfinished records remain is
/// not taken for a first use, and nothing is written over a file that is not understood.
pub open spec fn found_store(file: StoreFileView, traces: bool) -> StoreStateView {
    match file {
        StoreFileView::Absent => if traces {
            StoreStateView::Unavailable("关联存储主文件缺失，但仍有残留的基线或未完成操作，已保留现场"@)
        } else {
            StoreStateView::Missing
        },
        StoreFileView::Broken => StoreStateView::Unavailable("关联存储无法解析，已保留现场"@),
        StoreFileView::Held(s) => if s.version == STORE_VERSION {
            StoreStateView::Ready(s)
        } else {
            StoreStateView::Unavailable("关联存储版本不受支持，已保留现场"@)
        },
    }
}

/// The state of the store, given what its file holds and whether baselines or unfinished records
/// are there.
pub fn store_state(file: StoreFile, traces: bool) -> (r: StoreState)
    ensures
        r@ == found_store(file@, traces),
{
    match file {
        StoreFile::Absent => if traces {
            StoreState::Unavailable(
                "关联存储主文件缺失，但仍有残留的基线或未完成操作，已保留现场".to_owned(),
            )
        } else {
            StoreState::Missing
        },
        StoreFile::Broken => StoreState::Unavailable("关联存储无法解析，已保留现场".to_owned()),
        StoreFile::Held(s) => if s.version == STORE_VERSION {
            StoreState::Ready(s)
        } else {
            StoreState::Unavailable("关联存储版本不受支持，已保留现场".to_owned())
        },
    }
}

// ---------------------------------------------------------------------------
// Records of copies that are done
// ---------------------------------------------------------------------------

/// The record is of the edition, and its copy has nothing more to do.
pub open spec fn is_done(operation: OperationView, variant: WbVariant) -> bool {
    operation.variant == variant && !unfinished(operation.phase)
}

/// Record `j` is done and was changed after record `i`; of two that were changed at one time, the
/// later in the list.
pub open spec fn is_newer(
    operations: Seq<OperationView>,
    variant: WbVariant,
    i: int,
    j: int,
) -> bool {
    is_done(operations[j], variant) && (operations[j].updated_at > operations[i].updated_at || (
    operations[j].updated_at == operations[i].updated_at && j > i))
}

/// How many of the first `n` records are newer than record `i`.
pub open spec fn newer_among(
    operations: Seq<OperationView>,
    variant: WbVariant,
    i: int,
    n: nat,
) -> nat
    decreases n,
{
    if n == 0 {
        0
    } else {
        newer_among(operations, variant, i, (n - 1) as nat) + if is_newer(
            operations,
            variant,
            i,
            n - 1,
        ) {
            1nat
        } else {
            0nat
        }
    }
}

/// The record is done, and as many as are kept are newer.
pub open spec fn is_outdated(
    operations: Seq<OperationView>,
    variant: WbVariant,
    keep: nat,
    i: int,
) -> bool {
    is_done(operations[i], variant) && newer_among(operations, variant, i, operations.len()) >= keep
}

/// The ids of the records among the first `n` that are outdated.
pub open spec fn outdated(
    operations: Seq<OperationView>,
    variant: WbVariant,
    keep: nat,
    n: nat,
) -> Seq<Seq<char>>
    decreases n,
{
    if n == 0 {
        seq![]
    } else if is_outdated(operations, variant, keep, n - 1) {
        outdated(operations, variant, keep, (n - 1) as nat).push(operations[n - 1].operation_id)
    } else {
        outdated(operations, variant, keep, (n - 1) as nat)
    }
}

fn count_newer(operations: &Vec<Operation>, variant: WbVariant, i: usize) -> (r: usize)
    requires
        i < operations@.len(),
    ensures
        r == newer_among(
            operation_views(operations@),
            variant,
            i as int,
            operations@.len(),
        ),
{
    let ghost views = operation_views(operations@);
    let mut count: usize = 0;
    let mut j: usize = 0;
    while j < operations.len()
        invariant
            i < operations@.len(),
            j <= operations@.len(),
            count <= j,
            views == operation_views(operations@),
            count == newer_among(views, variant, i as int, j as nat),
        decreases operations@.len() - j,
    {
        assert(views[j as int] == operations@[j as int]@);
        assert(views[i as int] == operations@[i as int]@);
        let other = &operations[j];
        let done = other.variant == variant && !other.phase.is_unfinished();
        if done && (other.updated_at > operations[i].updated_at || (other.updated_at
            == operations[i].updated_at && j > i)) {
            count += 1;
        }
        j += 1;
    }
    count
}

/// The ids of the records that are no longer kept: those of finished copies, but for the `keep`
/// that were changed last.
pub fn prune_operations(operations: &Vec<Operation>, variant: WbVariant, keep: usize) -> (r: Vec<
    String,
>)
    ensures
        text::texts(r@) == outdated(
            operation_views(operations@),
            variant,
            keep as nat,
            operations@.len(),
        ),
{
    let ghost views = operation_views(operations@);
    let mut out: Vec<String> = Vec::new();
    let mut i: usize = 0;
    assert(text::texts(out@) =~= seq![]);
    while i < operations.len()
        invariant
            i <= operations@.len(),
            views == operation_views(operations@),
            text::texts(out@) == outdated(views, variant, keep as nat, i as nat),
        decreases operations@.len() - i,
    {
        let ghost before = text::texts(out@);
        assert(views[i as int] == operations@[i as int]@);
        let operation = &operations[i];
        if operation.variant == variant && !operation.phase.is_unfinished() && count_newer(
            operations,
            variant,
            i,
        ) >= keep {
            out.push(operation.operation_id.clone());
            assert(text::texts(out@) =~= before.push(views[i as int].operation_id));
        }
        i += 1;
    }
    out
}

// ---------------------------------------------------------------------------
// Laws
// ---------------------------------------------------------------------------

/// One of the first `n` records has the id, and its copy is done.
pub open spec fn is_id_of_done(
    operations: Seq<OperationView>,
    variant: WbVariant,
    n: nat,
    id: Seq<char>,
) -> bool {
    exists|i: int|
        0 <= i < n && is_done(#[trigger] operations[i], variant) && operations[i].operation_id == id
}

/// A record of a copy that still has something to do is never pruned: what is pruned is the id
/// of a record that is done.
pub proof fn law_unfinished_records_are_kept(
    operations: Seq<OperationView>,
    variant: WbVariant,
    keep: nat,
    n: nat,
)
    requires
        n <= operations.len(),
    ensures
        forall|id: Seq<char>|
            outdated(operations, variant, keep, n).contains(id) ==> #[trigger] is_id_of_done(
                operations,
                variant,
                n,
                id,
            ),
    decreases n,
{
    if n > 0 {
        let m = (n - 1) as nat;
        law_unfinished_records_are_kept(operations, variant, keep, m);
        let prior = outdated(operations, variant, keep, m);
        let all = outdated(operations, variant, keep, n);
        assert forall|id: Seq<char>| all.contains(id) implies #[trigger] is_id_of_done(
            operations,
            variant,
            n,
            id,
        ) by {
            let k = choose|k: int| 0 <= k < all.len() && all[k] == id;
            if k < prior.len() {
                assert(prior[k] == id);
                assert(prior.contains(id));
                assert(is_id_of_done(operations, variant, m, id));
                let i = choose|i: int|
                    0 <= i < m && is_done(#[trigger] operations[i], variant)
                        && operations[i].operation_id == id;
                assert(is_done(operations[i], variant));
            } else {
                assert(is_done(operations[n - 1], variant));
            }
        }
    }
}

/// A store is never taken for new while something of it remains.
pub proof fn law_remains_are_not_written_over(file: StoreFileView)
    ensures
        !(found_store(file, true) is Missing),
        found_store(file, true) is Ready <==> file is Held && file->Held_0.version
            == STORE_VERSION,
{
}

/// A body can be read where each line of it that is not blank is JSON. What is compared of it then
/// is each such line without the session's own id, in its place.
pub proof fn law_body_is_read_line_by_line(body: Seq<char>, session_id: Seq<char>)
    ensures
        ({
            let lines = text::filled(text::text_lines(body));
            let readable = forall|i: int|
                0 <= i < lines.len() ==> json::parsed(#[trigger] lines[i]) is Some;
            let found = content(body, session_id);
            &&& !readable ==> found == ContentStateView::Unavailable("正文含有无法解析的行"@)
            &&& readable ==> (found matches ContentStateView::Ready(c) && {
                &&& c.record_count == lines.len() as u64
                &&& c.line_digests.len() == lines.len()
                &&& forall|i: int|
                    0 <= i < lines.len() ==> #[trigger] c.line_digests[i] == text::replaced(
                        lines[i],
                        session_id,
                        seq![],
                    )
                &&& c.total_digest == text::joined(c.line_digests, "\n"@)
            })
        }),
{
}

/// A store that is gone counts as a first use only where nothing of it remains; one that is there
/// is taken as it is where its version is the known one, and is left alone otherwise.
pub proof fn law_store_is_taken_as_found(store: StoreView, traces: bool)
    ensures
        found_store(StoreFileView::Absent, false) == StoreStateView::Missing,
        found_store(StoreFileView::Absent, true) == StoreStateView::Unavailable(
            "关联存储主文件缺失，但仍有残留的基线或未完成操作，已保留现场"@,
        ),
        found_store(StoreFileView::Broken, traces) == StoreStateView::Unavailable(
            "关联存储无法解析，已保留现场"@,
        ),
        store.version == 1 ==> found_store(StoreFileView::Held(store), traces)
            == StoreStateView::Ready(store),
        store.version != 1 ==> found_store(StoreFileView::Held(store), traces)
            == StoreStateView::Unavailable("关联存储版本不受支持，已保留现场"@),
{
}

/// The places of the records of the edition that are done and newer than record `i`: changed
/// later, or at the same time and behind it.
pub open spec fn newer_places(
    operations: Seq<OperationView>,
    variant: WbVariant,
    i: int,
    n: nat,
) -> Set<int> {
    Set::new(
        |j: int|
            0 <= j < n && operations[j].variant == variant && (operations[j].phase
                == OpPhase::Completed || operations[j].phase == OpPhase::Abandoned) && (
            operations[j].updated_at > operations[i].updated_at || (operations[j].updated_at
                == operations[i].updated_at && j > i)),
    )
}

/// A record is pruned where it is of the edition, its copy is completed or abandoned, and at least
/// as many such records as are kept are newer; and nowhere else.
pub proof fn law_newest_done_records_are_kept(
    operations: Seq<OperationView>,
    variant: WbVariant,
    keep: nat,
    i: int,
)
    requires
        0 <= i < operations.len(),
        forall|a: int, b: int|
            0 <= a < b < operations.len() ==> (#[trigger] operations[a]).operation_id != (
            #[trigger] operations[b]).operation_id,
    ensures
        newer_places(operations, variant, i, operations.len()).finite(),
        outdated(operations, variant, keep, operations.len()).contains(operations[i].operation_id)
            <==> operations[i].variant == variant && (operations[i].phase == OpPhase::Completed
            || operations[i].phase == OpPhase::Abandoned) && newer_places(
            operations,
            variant,
            i,
            operations.len(),
        ).len() >= keep,
{
    lemma_newer_among(operations, variant, i, operations.len());
    lemma_outdated_ids(operations, variant, keep, operations.len(), i);
}

proof fn lemma_newer_among(operations: Seq<OperationView>, variant: WbVariant, i: int, n: nat)
    requires
        0 <= i < operations.len(),
        n <= operations.len(),
    ensures
        newer_places(operations, variant, i, n).finite(),
        newer_places(operations, variant, i, n).len() == newer_among(operations, variant, i, n),
    decreases n,
{
    let all = newer_places(operations, variant, i, n);
    if n == 0 {
        assert(all =~= Set::<int>::empty());
    } else {
        let before = newer_places(operations, variant, i, (n - 1) as nat);
        lemma_newer_among(operations, variant, i, (n - 1) as nat);
        if is_newer(operations, variant, i, n - 1) {
            assert(all =~= before.insert(n - 1));
        } else {
            assert(all =~= before);
        }
    }
}

proof fn lemma_outdated_ids(
    operations: Seq<OperationView>,
    variant: WbVariant,
    keep: nat,
    n: nat,
    i: int,
)
    requires
        0 <= i < operations.len(),
        n <= operations.len(),
        forall|a: int, b: int|
            0 <= a < b < operations.len() ==> (#[trigger] operations[a]).operation_id != (
            #[trigger] operations[b]).operation_id,
    ensures
        outdated(operations, variant, keep, n).contains(operations[i].operation_id) <==> i < n
            && is_outdated(operations, variant, keep, i),
    decreases n,
{
    let id = operations[i].operation_id;
    if n > 0 {
        let before = outdated(operations, variant, keep, (n - 1) as nat);
        let all = outdated(operations, variant, keep, n);
        lemma_outdated_ids(operations, variant, keep, (n - 1) as nat, i);
        if before.contains(id) {
            let k = choose|k: int| 0 <= k < before.len() && before[k] == id;
            assert(all[k] == id);
        }
        if is_outdated(operations, variant, keep, n - 1) {
            if i == n - 1 {
                assert(all[before.len() as int] == id);
            } else {
                assert(operations[n - 1].operation_id != id) by {
                    if i < n - 1 {
                        assert(operations[i].operation_id != operations[n - 1].operation_id);
                    } else {
                        assert(operations[n - 1].operation_id != operations[i].operation_id);
                    }
                }
                if all.contains(id) {
                    let k = choose|k: int| 0 <= k < all.len() && all[k] == id;
                    assert(before[k] == id);
                }
            }
        }
    }
}

} // verus!
