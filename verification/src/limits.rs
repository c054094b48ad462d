//! The ledger of model limits: which account's use of which model the service refuses, and until
//! when, as the clients' logs tell it.

use vstd::prelude::*;

use crate::log_line;
use crate::search;
use crate::table::Table;
use crate::text;

verus! {

/// The words of a refusal, in Chinese and in English.
pub const QUOTA_MARKER_CN: &'static str = "超出频率限制";

pub const QUOTA_MARKER_EN: &'static str = "usage exceeds frequency limit";

/// The words of the line that classifies a refusal:
/// `[ACP Agent] refusal classified: …, category=quota`.
pub const CLASSIFIER_MARKER: &'static str = "refusal classified";

pub const CLASSIFIER_CATEGORY: &'static str = "category=quota";

/// The words before a session's current model: `[ModelConfig] sessionId=…, resolved model=…`.
pub const RESOLVED_MODEL_MARKER: &'static str = "resolved model=";

// ---------------------------------------------------------------------------
// Scanning
// ---------------------------------------------------------------------------

/// One line that tells of a refusal.
#[derive(Debug, PartialEq, Eq)]
pub struct Hit {
    pub session_id: Option<String>,
    pub model: Option<String>,
    pub reset_at: i64,
    pub occurred_at: i64,
}

#[verifier::ext_equal]
pub struct HitView {
    pub session_id: Option<Seq<char>>,
    pub model: Option<Seq<char>>,
    pub reset_at: i64,
    pub occurred_at: i64,
}

impl Hit {
    pub open spec fn view(&self) -> HitView {
        HitView {
            session_id: text::opt_text(self.session_id),
            model: text::opt_text(self.model),
            reset_at: self.reset_at,
            occurred_at: self.occurred_at,
        }
    }
}

pub open spec fn hit_views(hits: Seq<Hit>) -> Seq<HitView> {
    hits.map_values(|h: Hit| h@)
}

/// The two times of a line: when the limit is lifted, and when the line was written.
#[derive(Clone, Copy)]
pub struct LineTimes {
    pub reset_at: Option<i64>,
    pub occurred_at: Option<i64>,
}

/// What the lines so far have told.
#[verifier::ext_equal]
pub struct ScanView {
    pub session_models: Map<Seq<char>, Seq<char>>,
    pub request_models: Map<Seq<char>, Seq<char>>,
    pub classified: Option<Seq<char>>,
    pub hits: Seq<HitView>,
}

pub open spec fn scan_start() -> ScanView {
    ScanView {
        session_models: Map::empty(),
        request_models: Map::empty(),
        classified: None,
        hits: seq![],
    }
}

/// The line holds the words of a refusal.
pub open spec fn is_quota_line(line: Seq<char>) -> bool {
    text::includes(line, QUOTA_MARKER_CN@) || text::includes(line, QUOTA_MARKER_EN@)
}

/// The models by session, with the one that the line gives.
pub open spec fn session_models_with(
    models: Map<Seq<char>, Seq<char>>,
    line: Seq<char>,
) -> Map<Seq<char>, Seq<char>> {
    match (
        log_line::model_value(line, RESOLVED_MODEL_MARKER@),
        log_line::field_value(line, "sessionId="@),
    ) {
        (Some(model), Some(session)) => models.insert(session, model),
        _ => models,
    }
}

/// The models by request, with the one that the line gives.
pub open spec fn request_models_with(
    models: Map<Seq<char>, Seq<char>>,
    line: Seq<char>,
) -> Map<Seq<char>, Seq<char>> {
    match (
        log_line::field_value(line, "requestId="@),
        log_line::request_model_value(line),
    ) {
        (Some(request), Some(model)) => models.insert(request, model),
        _ => models,
    }
}

/// The session of the last refusal that was classified as one of quota.
pub open spec fn classified_with(classified: Option<Seq<char>>, line: Seq<char>) -> Option<
    Seq<char>,
> {
    if text::includes(line, CLASSIFIER_MARKER@) && text::includes(line, CLASSIFIER_CATEGORY@) {
        match log_line::field_value(line, "sessionId="@) {
            Some(session) => Some(session),
            None => classified,
        }
    } else {
        classified
    }
}

/// The session of a refusal: the one that the pair at the line's end names, else the one that the
/// line names, else the one that was classified last.
pub open spec fn session_of(line: Seq<char>, classified: Option<Seq<char>>) -> Option<Seq<char>> {
    match log_line::pair_value(line) {
        Some(pair) => Some(pair.1),
        None => match log_line::field_value(line, "sessionId="@) {
            Some(session) => Some(session),
            None => classified,
        },
    }
}

/// The model of a refusal: the one of its request, else the session's last one, else unknown.
pub open spec fn model_of(
    line: Seq<char>,
    session: Option<Seq<char>>,
    request_models: Map<Seq<char>, Seq<char>>,
    session_models: Map<Seq<char>, Seq<char>>,
) -> Option<Seq<char>> {
    let by_request = match log_line::pair_value(line) {
        Some(pair) => crate::table::looked_up(request_models, pair.0),
        None => None,
    };
    match (by_request, session) {
        (Some(model), _) => Some(model),
        (None, Some(s)) => crate::table::looked_up(session_models, s),
        (None, None) => None,
    }
}

/// What is known after one more line.
pub open spec fn scan_step(state: ScanView, line: Seq<char>, times: LineTimes) -> ScanView {
    let session_models = session_models_with(state.session_models, line);
    let request_models = request_models_with(state.request_models, line);
    let classified = classified_with(state.classified, line);
    let session = session_of(line, classified);
    let hits = match (times.reset_at, times.occurred_at) {
        (Some(reset_at), Some(occurred_at)) => if is_quota_line(line) {
            state.hits.push(
                HitView {
                    session_id: session,
                    model: model_of(line, session, request_models, session_models),
                    reset_at,
                    occurred_at,
                },
            )
        } else {
            state.hits
        },
        _ => state.hits,
    };
    ScanView { session_models, request_models, classified, hits }
}

/// What is known after the lines.
pub open spec fn scan_state(lines: Seq<Seq<char>>, times: Seq<LineTimes>) -> ScanView
    decreases lines.len(),
{
    if lines.len() == 0 {
        scan_start()
    } else {
        scan_step(
            scan_state(lines.drop_last(), times.drop_last()),
            lines.last(),
            times.last(),
        )
    }
}

/// The refusals that the lines tell of, each with the model in use before it.
pub open spec fn scanned(lines: Seq<Seq<char>>, times: Seq<LineTimes>) -> Seq<HitView> {
    scan_state(lines, times).hits
}

/// The times belong to the lines that tell of a refusal.
pub open spec fn times_fit(lines: Seq<Seq<char>>, times: Seq<LineTimes>) -> bool {
    &&& times.len() == lines.len()
    &&& forall|i: int|
        0 <= i < lines.len() && is_quota_line(#[trigger] lines[i]) ==> {
            &&& times[i].reset_at == log_line::reset_value(lines[i])
            &&& log_line::is_stamp(lines[i], times[i].occurred_at)
        }
}

fn quota_line(line: &[char]) -> (r: bool)
    ensures
        r == is_quota_line(line@),
{
    text::has(line, text::chars_of(QUOTA_MARKER_CN).as_slice()) || text::has(
        line,
        text::chars_of(QUOTA_MARKER_EN).as_slice(),
    )
}

fn learn_session_model(models: &mut Table, line: &[char])
    ensures
        final(models)@ == session_models_with(old(models)@, line@),
{
    proof {
        reveal_strlit("sessionId=");
    }
    match log_line::model_in(line, RESOLVED_MODEL_MARKER) {
        Some(model) => match log_line::field_in(line, "sessionId=") {
            Some(session) => models.insert(session, model),
            None => {},
        },
        None => {},
    }
}

fn learn_request_model(models: &mut Table, line: &[char])
    ensures
        final(models)@ == request_models_with(old(models)@, line@),
{
    proof {
        reveal_strlit("requestId=");
    }
    match log_line::field_in(line, "requestId=") {
        Some(request) => match log_line::request_model_in(line) {
            Some(model) => models.insert(request, model),
            None => {},
        },
        None => {},
    }
}

fn learn_classified(classified: Option<String>, line: &[char]) -> (r: Option<String>)
    ensures
        text::opt_text(r) == classified_with(text::opt_text(classified), line@),
{
    proof {
        reveal_strlit("sessionId=");
    }
    if text::has(line, text::chars_of(CLASSIFIER_MARKER).as_slice()) && text::has(
        line,
        text::chars_of(CLASSIFIER_CATEGORY).as_slice(),
    ) {
        match log_line::field_in(line, "sessionId=") {
            Some(session) => Some(session),
            None => classified,
        }
    } else {
        classified
    }
}

fn hit_of(
    line: &[char],
    reset_at: i64,
    occurred_at: i64,
    classified: &Option<String>,
    request_models: &Table,
    session_models: &Table,
) -> (r: Hit)
    ensures
        r@ == (HitView {
            session_id: session_of(line@, text::opt_text(*classified)),
            model: model_of(
                line@,
                session_of(line@, text::opt_text(*classified)),
                request_models@,
                session_models@,
            ),
            reset_at,
            occurred_at,
        }),
{
    proof {
        reveal_strlit("sessionId=");
    }
    let (by_request, session_id) = match log_line::pair_in(line) {
        Some((request, session)) => (request_models.get(request.as_str()), Some(session)),
        None => (
            None,
            match log_line::field_in(line, "sessionId=") {
                Some(session) => Some(session),
                None => classified.clone(),
            },
        ),
    };
    let model = match (by_request, &session_id) {
        (Some(model), _) => Some(model),
        (None, Some(session)) => session_models.get(session.as_str()),
        (None, None) => None,
    };
    Hit { session_id, model, reset_at, occurred_at }
}

/// The refusals that the lines tell of, given the lines' times.
///
/// The lines are read in order: a refusal is held against the models known when its line is
/// reached, so a model that the user turns to afterwards is never taken for the refused one.
pub fn scan_lines(lines: &Vec<Vec<char>>, times: &Vec<LineTimes>) -> (r: Vec<Hit>)
    requires
        times@.len() == lines@.len(),
    ensures
        hit_views(r@) == scanned(text::line_views(lines@), times@),
{
    let mut hits: Vec<Hit> = Vec::new();
    let mut session_models = Table::new();
    let mut request_models = Table::new();
    let mut classified: Option<String> = None;
    let ghost views = text::line_views(lines@);
    let mut i: usize = 0;
    assert(hit_views(hits@) =~= seq![]);
    while i < lines.len()
        invariant
            i <= lines@.len(),
            times@.len() == lines@.len(),
            views == text::line_views(lines@),
            scan_state(views.take(i as int), times@.take(i as int)) == (ScanView {
                session_models: session_models@,
                request_models: request_models@,
                classified: text::opt_text(classified),
                hits: hit_views(hits@),
            }),
        decreases lines@.len() - i,
    {
        let line = lines[i].as_slice();
        let ghost hits_before = hits@;
        proof {
            assert(views.take(i + 1).drop_last() =~= views.take(i as int));
            assert(times@.take(i + 1).drop_last() =~= times@.take(i as int));
            assert(views.take(i + 1).last() == line@);
        }
        learn_session_model(&mut session_models, line);
        learn_request_model(&mut request_models, line);
        classified = learn_classified(classified, line);
        match (times[i].reset_at, times[i].occurred_at) {
            (Some(reset_at), Some(occurred_at)) => {
                if quota_line(line) {
                    let hit = hit_of(
                        line,
                        reset_at,
                        occurred_at,
                        &classified,
                        &request_models,
                        &session_models,
                    );
                    hits.push(hit);
                    assert(hit_views(hits@) =~= hit_views(hits_before).push(hit@));
                }
            },
            _ => {},
        }
        i += 1;
    }
    assert(views.take(lines@.len() as int) =~= views);
    assert(times@.take(lines@.len() as int) =~= times@);
    hits
}

/// The times of the lines that tell of a refusal.
fn times_of(lines: &Vec<Vec<char>>) -> (r: Vec<LineTimes>)
    ensures
        times_fit(text::line_views(lines@), r@),
{
    let ghost views = text::line_views(lines@);
    let mut times: Vec<LineTimes> = Vec::new();
    let mut i: usize = 0;
    while i < lines.len()
        invariant
            i <= lines@.len(),
            times@.len() == i,
            views == text::line_views(lines@),
            forall|j: int|
                0 <= j < i && is_quota_line(#[trigger] views[j]) ==> {
                    &&& times@[j].reset_at == log_line::reset_value(views[j])
                    &&& log_line::is_stamp(views[j], times@[j].occurred_at)
                },
        decreases lines@.len() - i,
    {
        let line = lines[i].as_slice();
        assert(views[i as int] == line@);
        if quota_line(line) {
            times.push(
                LineTimes {
                    reset_at: log_line::reset_at_in(line),
                    occurred_at: log_line::stamp_in(line),
                },
            );
        } else {
            times.push(LineTimes { reset_at: None, occurred_at: None });
        }
        i += 1;
    }
    times
}

/// The refusals that a log's text tells of.
pub fn scan_text(content: &str) -> (r: Vec<Hit>)
    ensures
        exists|times: Seq<LineTimes>|
            times_fit(text::text_lines(content@), times) && hit_views(r@) == scanned(
                text::text_lines(content@),
                times,
            ),
{
    let lines = text::lines_of(text::chars_of(content).as_slice());
    let times = times_of(&lines);
    scan_lines(&lines, &times)
}

/// The bytes of a log hold the words of a refusal.
pub open spec fn may_tell(bytes: Seq<u8>) -> bool {
    search::found(bytes, vstd::utf8::encode_utf8(QUOTA_MARKER_CN@)) || search::found(
        bytes,
        vstd::utf8::encode_utf8(QUOTA_MARKER_EN@),
    )
}

/// The refusals that the bytes of a log tell of. Only a log that holds the words of a refusal is
/// decoded.
pub fn scan_bytes(bytes: &[u8]) -> (r: Vec<Hit>)
    ensures
        !may_tell(bytes@) ==> r@.len() == 0,
        may_tell(bytes@) ==> exists|times: Seq<LineTimes>|
            times_fit(text::text_lines(text::lossy_text(bytes@)), times) && hit_views(r@)
                == scanned(text::text_lines(text::lossy_text(bytes@)), times),
        may_tell(bytes@) ==> text::is_decoding(text::lossy_text(bytes@), bytes@),
        may_tell(bytes@) && vstd::utf8::valid_utf8(bytes@) ==> exists|times: Seq<LineTimes>|
            times_fit(text::text_lines(vstd::utf8::decode_utf8(bytes@)), times) && hit_views(r@)
                == scanned(text::text_lines(vstd::utf8::decode_utf8(bytes@)), times),
{
    if !(search::contains(bytes, QUOTA_MARKER_CN.as_bytes()) || search::contains(
        bytes,
        QUOTA_MARKER_EN.as_bytes(),
    )) {
        return Vec::new();
    }
    scan_text(text::decode_lossy(bytes).as_str())
}

proof fn lemma_no_quota_line_no_hit(lines: Seq<Seq<char>>, times: Seq<LineTimes>)
    requires
        forall|i: int| 0 <= i < lines.len() ==> !is_quota_line(#[trigger] lines[i]),
        times.len() == lines.len(),
    ensures
        scanned(lines, times).len() == 0,
    decreases lines.len(),
{
    if lines.len() > 0 {
        assert forall|i: int| 0 <= i < lines.drop_last().len() implies !is_quota_line(
            #[trigger] lines.drop_last()[i],
        ) by {
            assert(lines.drop_last()[i] == lines[i]);
        }
        lemma_no_quota_line_no_hit(lines.drop_last(), times.drop_last());
        assert(!is_quota_line(lines[lines.len() - 1]));
    }
}

proof fn lemma_marker_in_bytes(t: Seq<char>, bytes: Seq<u8>, k: int, marker: Seq<char>)
    requires
        text::is_decoding(t, bytes),
        0 <= k < text::text_lines(t).len(),
        text::includes(text::text_lines(t)[k], marker),
        marker.len() > 0,
        forall|i: int| 0 <= i < marker.len() ==> #[trigger] marker[i] != '\u{fffd}',
    ensures
        search::found(bytes, vstd::utf8::encode_utf8(marker)),
{
    text::lemma_includes_in_line(t, k, marker);
    let at = text::lemma_decoding_includes(t, bytes, marker);
    assert(search::stands_at(bytes, vstd::utf8::encode_utf8(marker), at));
    assert(vstd::utf8::encode_utf8(marker).len() > 0);
}

/// The search of the bytes passes over no refusal: a log whose bytes do not hold the words of one
/// tells of none, whatever of it is not UTF-8.
pub proof fn law_byte_filter_loses_nothing(bytes: Seq<u8>, t: Seq<char>, times: Seq<LineTimes>)
    requires
        !may_tell(bytes),
        text::is_decoding(t, bytes),
        times.len() == text::text_lines(t).len(),
    ensures
        scanned(text::text_lines(t), times).len() == 0,
{
    let lines = text::text_lines(t);
    reveal_strlit("超出频率限制");
    reveal_strlit("usage exceeds frequency limit");
    assert forall|i: int| 0 <= i < lines.len() implies !is_quota_line(#[trigger] lines[i]) by {
        if text::includes(lines[i], QUOTA_MARKER_CN@) {
            lemma_marker_in_bytes(t, bytes, i, QUOTA_MARKER_CN@);
        }
        if text::includes(lines[i], QUOTA_MARKER_EN@) {
            lemma_marker_in_bytes(t, bytes, i, QUOTA_MARKER_EN@);
        }
    }
    lemma_no_quota_line_no_hit(lines, times);
}

/// A log in UTF-8 whose bytes do not hold the words of a refusal tells of none.
pub proof fn law_byte_filter_loses_nothing_in_utf8(bytes: Seq<u8>, times: Seq<LineTimes>)
    requires
        !may_tell(bytes),
        vstd::utf8::valid_utf8(bytes),
        times.len() == text::text_lines(vstd::utf8::decode_utf8(bytes)).len(),
    ensures
        scanned(text::text_lines(vstd::utf8::decode_utf8(bytes)), times).len() == 0,
{
    text::lemma_utf8_is_decoding(bytes);
    law_byte_filter_loses_nothing(bytes, vstd::utf8::decode_utf8(bytes), times);
}

/// What later lines say does not change what was found in the lines before them.
pub proof fn law_later_lines_change_no_earlier_hit(
    lines: Seq<Seq<char>>,
    times: Seq<LineTimes>,
    later_lines: Seq<Seq<char>>,
    later_times: Seq<LineTimes>,
)
    requires
        times.len() == lines.len(),
        later_times.len() == later_lines.len(),
    ensures
        scanned(lines, times).is_prefix_of(scanned(lines + later_lines, times + later_times)),
    decreases later_lines.len(),
{
    if later_lines.len() == 0 {
        assert(lines + later_lines =~= lines);
        assert(times + later_times =~= times);
    } else {
        assert((lines + later_lines).drop_last() =~= lines + later_lines.drop_last());
        assert((times + later_times).drop_last() =~= times + later_times.drop_last());
        law_later_lines_change_no_earlier_hit(
            lines,
            times,
            later_lines.drop_last(),
            later_times.drop_last(),
        );
    }
}

/// The line holds the words of a refusal, and both of its times are known.
pub open spec fn tells(line: Seq<char>, times: LineTimes) -> bool {
    &&& text::includes(line, "超出频率限制"@) || text::includes(
        line,
        "usage exceeds frequency limit"@,
    )
    &&& times.reset_at is Some
    &&& times.occurred_at is Some
}

/// The line says that the session now uses the model.
pub open spec fn gives_session_model(line: Seq<char>, session: Seq<char>, model: Seq<char>) -> bool {
    &&& log_line::model_value(line, "resolved model="@) == Some(model)
    &&& log_line::field_value(line, "sessionId="@) == Some(session)
}

/// The line says that the request uses the model.
pub open spec fn gives_request_model(line: Seq<char>, request: Seq<char>, model: Seq<char>) -> bool {
    &&& log_line::request_model_value(line) == Some(model)
    &&& log_line::field_value(line, "requestId="@) == Some(request)
}

/// The line says that a refusal in the session was classified as one of quota.
pub open spec fn classifies(line: Seq<char>, session: Seq<char>) -> bool {
    &&& text::includes(line, "refusal classified"@)
    &&& text::includes(line, "category=quota"@)
    &&& log_line::field_value(line, "sessionId="@) == Some(session)
}

/// The request in the pair at the line's end.
pub open spec fn request_of(line: Seq<char>) -> Seq<char> {
    match log_line::pair_value(line) {
        Some(pair) => pair.0,
        None => seq![],
    }
}

/// The place among the refusals of the one that line `k` tells of.
pub open spec fn place_of(lines: Seq<Seq<char>>, times: Seq<LineTimes>, k: int) -> int {
    scanned(lines.take(k), times.take(k)).len() as int
}

/// Each line that tells of a refusal is found, once, with its two times; no other line is.
pub proof fn law_each_refusal_is_found_once(lines: Seq<Seq<char>>, times: Seq<LineTimes>, k: int)
    requires
        times.len() == lines.len(),
        0 <= k < lines.len(),
    ensures
        tells(lines[k], times[k]) ==> {
            &&& place_of(lines, times, k + 1) == place_of(lines, times, k) + 1
            &&& place_of(lines, times, k) < scanned(lines, times).len()
            &&& scanned(lines, times)[place_of(lines, times, k)].reset_at == times[k].reset_at->0
            &&& scanned(lines, times)[place_of(lines, times, k)].occurred_at
                == times[k].occurred_at->0
        },
        !tells(lines[k], times[k]) ==> place_of(lines, times, k + 1) == place_of(lines, times, k),
        place_of(lines, times, 0) == 0,
        place_of(lines, times, lines.len() as int) == scanned(lines, times).len(),
{
    lemma_hit_of_line(lines, times, k);
    assert(lines.take(lines.len() as int) =~= lines);
    assert(times.take(lines.len() as int) =~= times);
}

/// A refusal belongs to the session in the pair at the line's end, else to the one that the line
/// names, else to the one that was classified last, on this line or before; to none where there
/// is no such line.
pub proof fn law_session_of_a_refusal(
    lines: Seq<Seq<char>>,
    times: Seq<LineTimes>,
    k: int,
    request: Seq<char>,
    session: Seq<char>,
)
    requires
        times.len() == lines.len(),
        0 <= k < lines.len(),
        tells(lines[k], times[k]),
    ensures
        ({
            let hit = scanned(lines, times)[place_of(lines, times, k)];
            let pair = log_line::pair_value(lines[k]);
            let named = log_line::field_value(lines[k], "sessionId="@);
            &&& pair == Some((request, session)) ==> hit.session_id == Some(session)
            &&& pair is None && named == Some(session) ==> hit.session_id == Some(session)
            &&& forall|i: int|
                pair is None && named is None && 0 <= i <= k && classifies(
                    #[trigger] lines[i],
                    session,
                ) && (forall|j: int, s: Seq<char>| i < j <= k ==> !classifies(lines[j], s))
                    ==> hit.session_id == Some(session)
            &&& pair is None && named is None && (forall|j: int, s: Seq<char>|
                0 <= j <= k ==> !classifies(lines[j], s)) ==> hit.session_id is None
        }),
{
    lemma_hit_of_line(lines, times, k);
    let some_lines = lines.take(k + 1);
    let some_times = times.take(k + 1);
    let hit = scanned(lines, times)[place_of(lines, times, k)];
    let pair = log_line::pair_value(lines[k]);
    let named = log_line::field_value(lines[k], "sessionId="@);
    assert forall|i: int|
        pair is None && named is None && 0 <= i <= k && classifies(#[trigger] lines[i], session) && (
        forall|j: int, s: Seq<char>| i < j <= k ==> !classifies(lines[j], s)) implies hit.session_id
        == Some(session) by {
        assert(some_lines[i] == lines[i]);
        assert forall|j: int, s: Seq<char>| i < j < some_lines.len() implies !classifies(
            some_lines[j],
            s,
        ) by {
            assert(some_lines[j] == lines[j]);
            assert(!classifies(lines[j], s));
        }
        lemma_last_classified(some_lines, some_times, i, session);
    }
    if pair is None && named is None && (forall|j: int, s: Seq<char>|
        0 <= j <= k ==> !classifies(lines[j], s)) {
        assert forall|j: int, s: Seq<char>| 0 <= j < some_lines.len() implies !classifies(
            some_lines[j],
            s,
        ) by {
            assert(some_lines[j] == lines[j]);
            assert(!classifies(lines[j], s));
        }
        lemma_none_classified(some_lines, some_times);
    }
}

/// The model of a refusal is the one that was last given for its request, on its line or before.
pub proof fn law_model_of_the_request(
    lines: Seq<Seq<char>>,
    times: Seq<LineTimes>,
    k: int,
    i: int,
    request: Seq<char>,
    session: Seq<char>,
    model: Seq<char>,
)
    requires
        times.len() == lines.len(),
        0 <= i <= k < lines.len(),
        tells(lines[k], times[k]),
        log_line::pair_value(lines[k]) == Some((request, session)),
        gives_request_model(lines[i], request, model),
        forall|j: int, m: Seq<char>| i < j <= k ==> !gives_request_model(lines[j], request, m),
    ensures
        scanned(lines, times)[place_of(lines, times, k)].model == Some(model),
{
    let head = lines.take(k + 1);
    lemma_hit_of_line(lines, times, k);
    assert(head[i] == lines[i]);
    assert forall|j: int, m: Seq<char>| i < j < head.len() implies
        !gives_request_model(head[j], request, m) by {
        assert(!gives_request_model(lines[j], request, m));
    }
    lemma_last_request_model(head, times.take(k + 1), i, request, model);
}

/// Where no model was given for the request of a refusal, or its line names no request, its model
/// is the one that was last given for its session, on its line or before: a later model of the
/// session takes the place of an earlier one.
pub proof fn law_model_of_the_session(
    lines: Seq<Seq<char>>,
    times: Seq<LineTimes>,
    k: int,
    i: int,
    session: Seq<char>,
    model: Seq<char>,
)
    requires
        times.len() == lines.len(),
        0 <= i <= k < lines.len(),
        tells(lines[k], times[k]),
        log_line::pair_value(lines[k]) is Some ==> forall|j: int, m: Seq<char>|
            0 <= j <= k ==> !gives_request_model(lines[j], request_of(lines[k]), m),
        scanned(lines, times)[place_of(lines, times, k)].session_id == Some(session),
        gives_session_model(lines[i], session, model),
        forall|j: int, m: Seq<char>| i < j <= k ==> !gives_session_model(lines[j], session, m),
    ensures
        scanned(lines, times)[place_of(lines, times, k)].model == Some(model),
{
    let head = lines.take(k + 1);
    lemma_hit_of_line(lines, times, k);
    lemma_request_without_model(lines, times, k);
    assert(head[i] == lines[i]);
    assert forall|j: int, m: Seq<char>| i < j < head.len() implies
        !gives_session_model(head[j], session, m) by {
        assert(!gives_session_model(lines[j], session, m));
    }
    lemma_last_session_model(head, times.take(k + 1), i, session, model);
}

/// A refusal has no model where none was given for its request nor for its session.
pub proof fn law_no_model_is_made_up(lines: Seq<Seq<char>>, times: Seq<LineTimes>, k: int)
    requires
        times.len() == lines.len(),
        0 <= k < lines.len(),
        tells(lines[k], times[k]),
        log_line::pair_value(lines[k]) is Some ==> forall|j: int, m: Seq<char>|
            0 <= j <= k ==> !gives_request_model(lines[j], request_of(lines[k]), m),
        scanned(lines, times)[place_of(lines, times, k)].session_id matches Some(s) ==> forall|
            j: int,
            m: Seq<char>,
        |
            0 <= j <= k ==> !gives_session_model(lines[j], s, m),
    ensures
        scanned(lines, times)[place_of(lines, times, k)].model is None,
{
    let head = lines.take(k + 1);
    lemma_hit_of_line(lines, times, k);
    lemma_request_without_model(lines, times, k);
    let hit = scanned(lines, times)[place_of(lines, times, k)];
    if hit.session_id is Some {
        let s = hit.session_id->0;
        assert forall|j: int, m: Seq<char>| 0 <= j < head.len() implies
            !gives_session_model(head[j], s, m) by {
            assert(!gives_session_model(lines[j], s, m));
        }
        lemma_no_session_model(head, times.take(k + 1), s);
    }
}

/// What is found of a line's refusal is what the lines up to it tell.
proof fn lemma_hit_of_line(lines: Seq<Seq<char>>, times: Seq<LineTimes>, k: int)
    requires
        times.len() == lines.len(),
        0 <= k < lines.len(),
    ensures
        ({
            let state = scan_state(lines.take(k + 1), times.take(k + 1));
            let before = scan_state(lines.take(k), times.take(k));
            let session = session_of(lines[k], state.classified);
            &&& tells(lines[k], times[k]) ==> {
                &&& state.hits.len() == before.hits.len() + 1
                &&& before.hits.len() < scanned(lines, times).len()
                &&& scanned(lines, times)[before.hits.len() as int] == (HitView {
                    session_id: session,
                    model: model_of(
                        lines[k],
                        session,
                        state.request_models,
                        state.session_models,
                    ),
                    reset_at: times[k].reset_at->0,
                    occurred_at: times[k].occurred_at->0,
                })
            }
            &&& !tells(lines[k], times[k]) ==> state.hits == before.hits
        }),
{
    let head = lines.take(k + 1);
    let head_times = times.take(k + 1);
    assert(head.drop_last() =~= lines.take(k));
    assert(head_times.drop_last() =~= times.take(k));
    assert(head.last() == lines[k] && head_times.last() == times[k]);
    law_later_lines_change_no_earlier_hit(
        head,
        head_times,
        lines.skip(k + 1),
        times.skip(k + 1),
    );
    assert(head + lines.skip(k + 1) =~= lines);
    assert(head_times + times.skip(k + 1) =~= times);
    let n = scan_state(lines.take(k), times.take(k)).hits.len() as int;
    if tells(lines[k], times[k]) {
        assert(scanned(head, head_times)[n] == scanned(lines, times)[n]);
    }
}

/// The request of a refusal has no model where no line gave one.
proof fn lemma_request_without_model(lines: Seq<Seq<char>>, times: Seq<LineTimes>, k: int)
    requires
        times.len() == lines.len(),
        0 <= k < lines.len(),
        log_line::pair_value(lines[k]) is Some ==> forall|j: int, m: Seq<char>|
            0 <= j <= k ==> !gives_request_model(lines[j], request_of(lines[k]), m),
    ensures
        log_line::pair_value(lines[k]) matches Some(pair) ==> !scan_state(
            lines.take(k + 1),
            times.take(k + 1),
        ).request_models.contains_key(pair.0),
{
    let head = lines.take(k + 1);
    if log_line::pair_value(lines[k]) is Some {
        let request = request_of(lines[k]);
        assert forall|j: int, m: Seq<char>| 0 <= j < head.len() implies
            !gives_request_model(head[j], request, m) by {
            assert(!gives_request_model(lines[j], request, m));
        }
        lemma_no_request_model(head, times.take(k + 1), request);
    }
}

proof fn lemma_last_session_model(
    lines: Seq<Seq<char>>,
    times: Seq<LineTimes>,
    i: int,
    session: Seq<char>,
    model: Seq<char>,
)
    requires
        times.len() == lines.len(),
        0 <= i < lines.len(),
        gives_session_model(lines[i], session, model),
        forall|j: int, m: Seq<char>|
            i < j < lines.len() ==> !gives_session_model(lines[j], session, m),
    ensures
        scan_state(lines, times).session_models.contains_pair(session, model),
    decreases lines.len(),
{
    if i < lines.len() - 1 {
        let last = lines.last();
        assert(lines.drop_last()[i] == lines[i]);
        assert forall|j: int, m: Seq<char>| i < j < lines.drop_last().len() implies
            !gives_session_model(lines.drop_last()[j], session, m) by {
            assert(!gives_session_model(lines[j], session, m));
        }
        lemma_last_session_model(lines.drop_last(), times.drop_last(), i, session, model);
        match log_line::model_value(last, "resolved model="@) {
            Some(m) => {
                assert(!gives_session_model(lines[lines.len() - 1], session, m));
            },
            None => {},
        }
    }
}

proof fn lemma_no_session_model(lines: Seq<Seq<char>>, times: Seq<LineTimes>, session: Seq<char>)
    requires
        times.len() == lines.len(),
        forall|j: int, m: Seq<char>|
            0 <= j < lines.len() ==> !gives_session_model(lines[j], session, m),
    ensures
        !scan_state(lines, times).session_models.contains_key(session),
    decreases lines.len(),
{
    if lines.len() > 0 {
        let last = lines.last();
        assert forall|j: int, m: Seq<char>| 0 <= j < lines.drop_last().len() implies
            !gives_session_model(lines.drop_last()[j], session, m) by {
            assert(!gives_session_model(lines[j], session, m));
        }
        lemma_no_session_model(lines.drop_last(), times.drop_last(), session);
        match log_line::model_value(last, "resolved model="@) {
            Some(m) => {
                assert(!gives_session_model(lines[lines.len() - 1], session, m));
            },
            None => {},
        }
    }
}

proof fn lemma_last_request_model(
    lines: Seq<Seq<char>>,
    times: Seq<LineTimes>,
    i: int,
    request: Seq<char>,
    model: Seq<char>,
)
    requires
        times.len() == lines.len(),
        0 <= i < lines.len(),
        gives_request_model(lines[i], request, model),
        forall|j: int, m: Seq<char>|
            i < j < lines.len() ==> !gives_request_model(lines[j], request, m),
    ensures
        scan_state(lines, times).request_models.contains_pair(request, model),
    decreases lines.len(),
{
    if i < lines.len() - 1 {
        let last = lines.last();
        assert(lines.drop_last()[i] == lines[i]);
        assert forall|j: int, m: Seq<char>| i < j < lines.drop_last().len() implies
            !gives_request_model(lines.drop_last()[j], request, m) by {
            assert(!gives_request_model(lines[j], request, m));
        }
        lemma_last_request_model(lines.drop_last(), times.drop_last(), i, request, model);
        match log_line::request_model_value(last) {
            Some(m) => {
                assert(!gives_request_model(lines[lines.len() - 1], request, m));
            },
            None => {},
        }
    }
}

proof fn lemma_no_request_model(lines: Seq<Seq<char>>, times: Seq<LineTimes>, request: Seq<char>)
    requires
        times.len() == lines.len(),
        forall|j: int, m: Seq<char>|
            0 <= j < lines.len() ==> !gives_request_model(lines[j], request, m),
    ensures
        !scan_state(lines, times).request_models.contains_key(request),
    decreases lines.len(),
{
    if lines.len() > 0 {
        let last = lines.last();
        assert forall|j: int, m: Seq<char>| 0 <= j < lines.drop_last().len() implies
            !gives_request_model(lines.drop_last()[j], request, m) by {
            assert(!gives_request_model(lines[j], request, m));
        }
        lemma_no_request_model(lines.drop_last(), times.drop_last(), request);
        match log_line::request_model_value(last) {
            Some(m) => {
                assert(!gives_request_model(lines[lines.len() - 1], request, m));
            },
            None => {},
        }
    }
}

proof fn lemma_last_classified(
    lines: Seq<Seq<char>>,
    times: Seq<LineTimes>,
    i: int,
    session: Seq<char>,
)
    requires
        times.len() == lines.len(),
        0 <= i < lines.len(),
        classifies(lines[i], session),
        forall|j: int, s: Seq<char>| i < j < lines.len() ==> !classifies(lines[j], s),
    ensures
        scan_state(lines, times).classified == Some(session),
    decreases lines.len(),
{
    if i < lines.len() - 1 {
        assert(lines.drop_last()[i] == lines[i]);
        assert forall|j: int, s: Seq<char>| i < j < lines.drop_last().len() implies !classifies(
            lines.drop_last()[j],
            s,
        ) by {
            assert(!classifies(lines[j], s));
        }
        lemma_last_classified(lines.drop_last(), times.drop_last(), i, session);
        match log_line::field_value(lines.last(), "sessionId="@) {
            Some(s) => {
                assert(!classifies(lines[lines.len() - 1], s));
            },
            None => {},
        }
    }
}

proof fn lemma_none_classified(lines: Seq<Seq<char>>, times: Seq<LineTimes>)
    requires
        times.len() == lines.len(),
        forall|j: int, s: Seq<char>| 0 <= j < lines.len() ==> !classifies(lines[j], s),
    ensures
        scan_state(lines, times).classified is None,
    decreases lines.len(),
{
    if lines.len() > 0 {
        assert forall|j: int, s: Seq<char>| 0 <= j < lines.drop_last().len() implies !classifies(
            lines.drop_last()[j],
            s,
        ) by {
            assert(!classifies(lines[j], s));
        }
        lemma_none_classified(lines.drop_last(), times.drop_last());
        match log_line::field_value(lines.last(), "sessionId="@) {
            Some(s) => {
                assert(!classifies(lines[lines.len() - 1], s));
            },
            None => {},
        }
    }
}

/// A log is not passed over where its bytes hold the words of a refusal in either language, in
/// whatever surroundings.
pub proof fn law_either_language_is_looked_at(before: Seq<u8>, after: Seq<u8>)
    ensures
        may_tell(before + vstd::utf8::encode_utf8("超出频率限制"@) + after),
        may_tell(before + vstd::utf8::encode_utf8("usage exceeds frequency limit"@) + after),
{
    reveal_strlit("超出频率限制");
    reveal_strlit("usage exceeds frequency limit");
    let cn = vstd::utf8::encode_utf8("超出频率限制"@);
    let en = vstd::utf8::encode_utf8("usage exceeds frequency limit"@);
    assert("超出频率限制"@.len() == 6);
    assert("usage exceeds frequency limit"@.len() == 29);
    assert(cn.len() > 0);
    assert(en.len() > 0);
    search::law_bytes_are_found_where_they_stand(before, cn, after);
    search::law_bytes_are_found_where_they_stand(before, en, after);
}

/// The times of a line with the words of a refusal are those that the line itself gives.
pub proof fn law_times_are_the_lines_own(lines: Seq<Seq<char>>, times: Seq<LineTimes>, k: int)
    requires
        times_fit(lines, times),
        0 <= k < lines.len(),
        text::includes(lines[k], "超出频率限制"@) || text::includes(
            lines[k],
            "usage exceeds frequency limit"@,
        ),
    ensures
        times.len() == lines.len(),
        times[k].reset_at == log_line::reset_value(lines[k]),
        log_line::is_stamp(lines[k], times[k].occurred_at),
{
    assert(is_quota_line(lines[k]));
}

} // verus!
