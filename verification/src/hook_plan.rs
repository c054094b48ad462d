//! What is to be done to a client's settings, and to what is kept of them, when the hooks are put
//! in and when they are taken out.

use vstd::prelude::*;

use crate::json;
use crate::json::Json;
use crate::json::JsonView;
use crate::rate_limit_hook;
use crate::rate_limit_hook::HookLayout;
use crate::text;

verus! {

/// What is to be done to the copy that is kept of the settings.
#[derive(Debug, PartialEq, Eq)]
pub enum BackupAction {
    Keep,
    /// Note that there are no settings.
    MarkAbsent,
    Write(String),
}

#[verifier::ext_equal]
pub enum BackupView {
    Keep,
    MarkAbsent,
    Write(Seq<char>),
}

impl BackupAction {
    pub open spec fn view(&self) -> BackupView {
        match self {
            BackupAction::Keep => BackupView::Keep,
            BackupAction::MarkAbsent => BackupView::MarkAbsent,
            BackupAction::Write(t) => BackupView::Write(t@),
        }
    }
}

/// What is to be done to the settings.
#[derive(Debug, PartialEq, Eq)]
pub enum SettingsAction {
    Keep,
    Write(String),
    Remove,
}

#[verifier::ext_equal]
pub enum SettingsView {
    Keep,
    Write(Seq<char>),
    Remove,
}

impl SettingsAction {
    pub open spec fn view(&self) -> SettingsView {
        match self {
            SettingsAction::Keep => SettingsView::Keep,
            SettingsAction::Write(t) => SettingsView::Write(t@),
            SettingsAction::Remove => SettingsView::Remove,
        }
    }
}

/// What is kept of a target's settings: the copy, where it can be read, and whether there is one,
/// and whether there is a mark that there were no settings.
pub struct Kept {
    pub backup: Option<String>,
    pub backup_exists: bool,
    pub absent_mark: bool,
}

/// What is to be done to put the hooks in. Where the settings are not shaped so that they can be
/// put in, there is a complaint in place of the second; the first is done all the same.
pub struct InstallPlan {
    pub backup: BackupAction,
    pub settings: Result<SettingsAction, String>,
}

#[verifier::ext_equal]
pub struct InstallView {
    pub backup: BackupView,
    pub settings: Result<SettingsView, Seq<char>>,
}

impl InstallPlan {
    pub open spec fn view(&self) -> InstallView {
        InstallView {
            backup: self.backup@,
            settings: match self.settings {
                Ok(a) => Ok(a@),
                Err(e) => Err(e@),
            },
        }
    }
}

pub open spec fn plan_view(r: Result<InstallPlan, String>) -> Result<InstallView, Seq<char>> {
    match r {
        Ok(p) => Ok(p@),
        Err(e) => Err(e@),
    }
}

/// The object without entries.
pub open spec fn empty_object() -> JsonView {
    JsonView::Object(Map::empty())
}

/// What is to be done to the copy, given what the settings say. A copy that is of these settings
/// stays, and of settings that were not there none is made. Settings that do not hold the marker
/// are copied as they are, others without the switcher's entries.
pub open spec fn backup_plan(
    original: Option<Seq<char>>,
    root: JsonView,
    marker: Seq<char>,
    kept: Kept,
) -> BackupView {
    match original {
        None => if !kept.backup_exists && !kept.absent_mark {
            BackupView::MarkAbsent
        } else {
            BackupView::Keep
        },
        Some(t) => if is_copy_of(text::opt_text(kept.backup), root, marker) || were_absent(
            root,
            marker,
            kept,
        ) {
            BackupView::Keep
        } else if text::includes(t, marker) || rate_limit_hook::is_marked(root, marker) {
            BackupView::Write(json::printed(rate_limit_hook::cleaned(root, marker)))
        } else {
            BackupView::Write(t)
        },
    }
}

/// The settings hold nothing but the switcher's entries, and were not there before those.
pub open spec fn were_absent(root: JsonView, marker: Seq<char>, kept: Kept) -> bool {
    &&& kept.backup is None
    &&& kept.absent_mark
    &&& rate_limit_hook::is_marked(root, marker)
    &&& json::same_json(rate_limit_hook::cleaned(root, marker), empty_object())
}

/// The text is a copy of settings that say `root`, from before the switcher's entries were put
/// in: it says the same where they are not in, and the same but for them where they are.
pub open spec fn is_copy_of(t: Option<Seq<char>>, root: JsonView, marker: Seq<char>) -> bool {
    if rate_limit_hook::is_marked(root, marker) {
        is_base_of(t, rate_limit_hook::cleaned(root, marker), marker)
    } else {
        says(t, root)
    }
}

/// The text is JSON without an entry of the switcher, and what is left of it where such entries
/// are taken out, with what is empty then, is the same as `left`.
pub open spec fn is_base_of(t: Option<Seq<char>>, left: JsonView, marker: Seq<char>) -> bool {
    match t {
        Some(s) => match json::parsed(s) {
            Some(v) => !rate_limit_hook::is_marked(v, marker) && json::same_json(
                rate_limit_hook::cleaned(v, marker),
                left,
            ),
            None => false,
        },
        None => false,
    }
}

/// The text is JSON and says the same as `value`.
pub open spec fn says(t: Option<Seq<char>>, value: JsonView) -> bool {
    match t {
        Some(s) => match json::parsed(s) {
            Some(v) => json::same_json(v, value),
            None => false,
        },
        None => false,
    }
}

/// What is to be done to the settings to put the hooks in.
pub open spec fn settings_plan(
    original: Option<Seq<char>>,
    root: JsonView,
    command: Seq<char>,
    marker: Seq<char>,
) -> Result<SettingsView, Seq<char>> {
    match rate_limit_hook::installed(root, command, marker) {
        Ok(new) => if original == Some(json::printed(new)) {
            Ok(SettingsView::Keep)
        } else {
            Ok(SettingsView::Write(json::printed(new)))
        },
        Err(e) => Err(e),
    }
}

/// What settings with the given text say, or where there are none, the empty object.
pub open spec fn root_of(original: Option<Seq<char>>) -> JsonView {
    match original {
        Some(t) => json::parsed(t)->0,
        None => empty_object(),
    }
}

/// What settings with the given text say with the hooks put in.
pub open spec fn installed_root(
    original: Option<Seq<char>>,
    command: Seq<char>,
    marker: Seq<char>,
) -> JsonView {
    rate_limit_hook::installed(root_of(original), command, marker)->Ok_0
}

/// What is to be done to put the hooks into settings with the given text.
pub open spec fn install_plan(
    original: Option<Seq<char>>,
    command: Seq<char>,
    marker: Seq<char>,
    kept: Kept,
) -> Result<InstallView, Seq<char>> {
    match original {
        Some(t) => match json::parsed(t) {
            Some(root) => Ok(
                InstallView {
                    backup: backup_plan(original, root, marker, kept),
                    settings: settings_plan(original, root, command, marker),
                },
            ),
            None => Err("不是合法 JSON，已跳过（未做任何改动）"@),
        },
        None => Ok(
            InstallView {
                backup: backup_plan(original, empty_object(), marker, kept),
                settings: settings_plan(original, empty_object(), command, marker),
            },
        ),
    }
}

// ---------------------------------------------------------------------------
// What is read back from what is printed
// ---------------------------------------------------------------------------

pub proof fn lemma_readable_numbers(v: JsonView)
    requires
        json::readable(v),
    ensures
        json::numbers_hold(v),
{
    assert(json::printable(v, 127));
}

proof fn lemma_others(list: Seq<JsonView>, marker: Seq<char>)
    ensures
        forall|i: int|
            0 <= i < rate_limit_hook::others(list, marker).len() ==> list.contains(
                #[trigger] rate_limit_hook::others(list, marker)[i],
            ) && !rate_limit_hook::is_ours(rate_limit_hook::others(list, marker)[i], marker),
    decreases list.len(),
{
    if list.len() > 0 {
        let front = list.drop_last();
        lemma_others(front, marker);
        let o = rate_limit_hook::others(front, marker);
        let all = rate_limit_hook::others(list, marker);
        assert forall|i: int| 0 <= i < all.len() implies list.contains(#[trigger] all[i])
            && !rate_limit_hook::is_ours(all[i], marker) by {
            if i < o.len() {
                assert(o[i] == all[i]);
                let k = choose|k: int| 0 <= k < front.len() && front[k] == o[i];
                assert(list[k] == all[i]);
            } else {
                assert(list[list.len() - 1] == all[i]);
            }
        }
    }
}

proof fn lemma_others_printable(list: Seq<JsonView>, marker: Seq<char>, n: nat)
    requires
        forall|i: int| 0 <= i < list.len() ==> json::printable(#[trigger] list[i], n),
    ensures
        forall|i: int|
            0 <= i < rate_limit_hook::others(list, marker).len() ==> json::printable(
                #[trigger] rate_limit_hook::others(list, marker)[i],
                n,
            ),
{
    lemma_others(list, marker);
    let all = rate_limit_hook::others(list, marker);
    assert forall|i: int| 0 <= i < all.len() implies json::printable(#[trigger] all[i], n) by {
        let k = choose|k: int| 0 <= k < list.len() && list[k] == all[i];
        assert(json::printable(list[k], n));
    }
}

proof fn lemma_our_entry_printable(command: Seq<char>, n: nat)
    requires
        n >= 3,
    ensures
        json::printable(rate_limit_hook::our_entry(command), n),
{
    reveal_with_fuel(json::printable, 4);
    let hook = JsonView::Object(
        map!["type"@ => JsonView::Text("command"@), "command"@ => JsonView::Text(command)],
    );
    assert(json::printable(hook, (n - 2) as nat));
    let hooks = JsonView::Array(seq![hook]);
    assert(json::printable(hooks, (n - 1) as nat));
}

proof fn lemma_upserted_printable(
    root: JsonView,
    event: Seq<char>,
    command: Seq<char>,
    marker: Seq<char>,
    n: nat,
)
    requires
        json::printable(root, n),
        n >= 6,
        rate_limit_hook::upserted(root, event, command, marker) is Ok,
    ensures
        json::printable(rate_limit_hook::upserted(root, event, command, marker)->Ok_0, n),
{
    let m = (n - 1) as nat;
    match root {
        JsonView::Object(o) => {
            let hooks = if o.contains_key("hooks"@) {
                o["hooks"@]
            } else {
                empty_object()
            };
            assert(json::printable(hooks, m));
            match hooks {
                JsonView::Object(h) => {
                    let list = if h.contains_key(event) {
                        h[event]
                    } else {
                        JsonView::Array(seq![])
                    };
                    assert(json::printable(list, (n - 2) as nat));
                    match list {
                        JsonView::Array(l) => {
                            lemma_others_printable(l, marker, (n - 3) as nat);
                            lemma_our_entry_printable(command, (n - 3) as nat);
                            let entries = rate_limit_hook::others(l, marker).push(
                                rate_limit_hook::our_entry(command),
                            );
                            assert(json::printable(JsonView::Array(entries), (n - 2) as nat));
                            let h2 = h.insert(event, JsonView::Array(entries));
                            assert(json::printable(JsonView::Object(h2), m));
                            let o2 = o.insert("hooks"@, JsonView::Object(h2));
                            assert(json::printable(JsonView::Object(o2), n));
                        },
                        _ => {},
                    }
                },
                _ => {},
            }
        },
        _ => {},
    }
}

proof fn lemma_installed_readable(root: JsonView, command: Seq<char>, marker: Seq<char>)
    requires
        json::readable(root),
        rate_limit_hook::installed(root, command, marker) is Ok,
    ensures
        json::readable(rate_limit_hook::installed(root, command, marker)->Ok_0),
{
    lemma_upserted_printable(root, rate_limit_hook::STOP_EVENT@, command, marker, 127);
    let first = rate_limit_hook::upserted(
        root,
        rate_limit_hook::STOP_EVENT@,
        command,
        marker,
    )->Ok_0;
    lemma_upserted_printable(first, rate_limit_hook::FINAL_STOP_EVENT@, command, marker, 127);
}

proof fn lemma_event_cleaned_printable(
    hooks: Map<Seq<char>, JsonView>,
    event: Seq<char>,
    marker: Seq<char>,
    n: nat,
)
    requires
        json::printable(JsonView::Object(hooks), n),
    ensures
        json::printable(
            JsonView::Object(rate_limit_hook::event_cleaned(hooks, event, marker)),
            n,
        ),
{
    match json::array_of(json::field(JsonView::Object(hooks), event)) {
        Some(list) => {
            assert(hooks.contains_key(event));
            assert(json::printable(hooks[event], (n - 1) as nat));
            lemma_others_printable(list, marker, (n - 2) as nat);
            let left = JsonView::Array(rate_limit_hook::others(list, marker));
            assert(json::printable(left, (n - 1) as nat));
        },
        None => {},
    }
}

proof fn lemma_cleaned_readable(root: JsonView, marker: Seq<char>)
    requires
        json::readable(root),
    ensures
        json::readable(rate_limit_hook::cleaned(root, marker)),
{
    match root {
        JsonView::Object(o) => match json::field(root, "hooks"@) {
            Some(JsonView::Object(h)) => {
                assert(o.contains_key("hooks"@));
                assert(json::printable(JsonView::Object(h), 126));
                lemma_event_cleaned_printable(h, rate_limit_hook::STOP_EVENT@, marker, 126);
                let first = rate_limit_hook::event_cleaned(
                    h,
                    rate_limit_hook::STOP_EVENT@,
                    marker,
                );
                lemma_event_cleaned_printable(
                    first,
                    rate_limit_hook::FINAL_STOP_EVENT@,
                    marker,
                    126,
                );
            },
            _ => {},
        },
        _ => {},
    }
}

// ---------------------------------------------------------------------------
// Plans
// ---------------------------------------------------------------------------

fn text_says(t: &Option<String>, value: &Json) -> (r: bool)
    ensures
        r == says(text::opt_text(*t), value@),
{
    match t {
        Some(s) => match json::parse_json(s.as_str()) {
            Some(v) => v.same(value),
            None => false,
        },
        None => false,
    }
}

fn text_is_base(t: &Option<String>, left: &Json, marker: &str) -> (r: bool)
    ensures
        r == is_base_of(text::opt_text(*t), left@, marker@),
{
    match t {
        Some(s) => match json::parse_json(s.as_str()) {
            Some(v) => !rate_limit_hook::config_has_marker(&v, marker)
                && rate_limit_hook::remove_event_entries(&v, marker).same(left),
            None => false,
        },
        None => false,
    }
}

/// What is to be done to the copy that is kept of the settings, given what the settings say.
pub fn refresh_backup(original: &Option<String>, root: &Json, marker: &str, kept: &Kept) -> (r:
    BackupAction)
    requires
        json::readable(root@),
    ensures
        r@ == backup_plan(text::opt_text(*original), root@, marker@, *kept),
{
    match original {
        None => if !kept.backup_exists && !kept.absent_mark {
            BackupAction::MarkAbsent
        } else {
            BackupAction::Keep
        },
        Some(t) => {
            let baseline = rate_limit_hook::remove_event_entries(root, marker);
            let nothing = Json::Object(Vec::new());
            assert(nothing@ == empty_object());
            let marked = rate_limit_hook::config_has_marker(root, marker);
            let keep = if marked {
                text_is_base(&kept.backup, &baseline, marker) || (kept.backup.is_none()
                    && kept.absent_mark && baseline.same(&nothing))
            } else {
                text_says(&kept.backup, root)
            };
            if keep {
                BackupAction::Keep
            } else if text::has_text(t.as_str(), marker) || marked {
                proof {
                    lemma_cleaned_readable(root@, marker@);
                    lemma_readable_numbers(baseline@);
                }
                BackupAction::Write(json::pretty(&baseline))
            } else {
                BackupAction::Write(t.clone())
            }
        },
    }
}

fn plan_settings(original: &Option<String>, root: &Json, command: &str, marker: &str) -> (r: Result<
    SettingsAction,
    String,
>)
    requires
        json::readable(root@),
    ensures
        match r {
            Ok(a) => settings_plan(text::opt_text(*original), root@, command@, marker@) == Ok::<
                SettingsView,
                Seq<char>,
            >(a@),
            Err(e) => settings_plan(text::opt_text(*original), root@, command@, marker@) == Err::<
                SettingsView,
                Seq<char>,
            >(e@),
        },
        r is Ok ==> json::reads_back(
            rate_limit_hook::installed(root@, command@, marker@)->Ok_0,
        ),
{
    match rate_limit_hook::install_entries(root, command, marker) {
        Ok(new) => {
            proof {
                lemma_installed_readable(root@, command@, marker@);
                lemma_readable_numbers(new@);
            }
            let content = json::pretty(&new);
            let same = match original {
                Some(t) => text::same_text(t.as_str(), content.as_str()),
                None => false,
            };
            if same {
                Ok(SettingsAction::Keep)
            } else {
                Ok(SettingsAction::Write(content))
            }
        },
        Err(e) => Err(e),
    }
}

/// What is to be done to put the hooks into a target's settings. Settings that are not JSON are
/// left alone.
pub fn install_target(original: &Option<String>, command: &str, marker: &str, kept: &Kept) -> (r:
    Result<InstallPlan, String>)
    ensures
        plan_view(r) == install_plan(text::opt_text(*original), command@, marker@, *kept),
        r is Ok && r->Ok_0.settings is Ok ==> json::reads_back(
            installed_root(text::opt_text(*original), command@, marker@),
        ),
{
    match original {
        Some(t) => match json::parse_json(t.as_str()) {
            Some(root) => {
                let backup = refresh_backup(original, &root, marker, kept);
                let settings = plan_settings(original, &root, command, marker);
                Ok(InstallPlan { backup, settings })
            },
            None => Err("不是合法 JSON，已跳过（未做任何改动）".to_owned()),
        },
        None => {
            let root = Json::Object(Vec::new());
            assert(root@ == empty_object());
            let backup = refresh_backup(original, &root, marker, kept);
            let settings = plan_settings(original, &root, command, marker);
            Ok(InstallPlan { backup, settings })
        },
    }
}

/// The copy is what settings that say `root` go back to: where they hold entries of the switcher,
/// it says the same but for them, and where they do not, it says what is left of them.
pub open spec fn goes_back(t: Option<Seq<char>>, root: JsonView, marker: Seq<char>) -> bool {
    let left = rate_limit_hook::cleaned(root, marker);
    if rate_limit_hook::is_marked(root, marker) {
        is_base_of(t, left, marker)
    } else {
        says(t, left)
    }
}

/// What is to be done to take the hooks out of settings with the given text: where nothing but
/// the hooks was changed since they were put in, the copy is written back as it is; settings that
/// were not there and hold nothing else go; any other change is kept.
pub open spec fn uninstall_plan(
    original: Option<Seq<char>>,
    marker: Seq<char>,
    kept: Kept,
) -> SettingsView {
    match original {
        None => SettingsView::Keep,
        Some(t) => match json::parsed(t) {
            None => SettingsView::Keep,
            Some(root) => {
                let left = rate_limit_hook::cleaned(root, marker);
                if goes_back(text::opt_text(kept.backup), root, marker) {
                    if kept.backup->0@ == t {
                        SettingsView::Keep
                    } else {
                        SettingsView::Write(kept.backup->0@)
                    }
                } else if kept.backup is None && kept.absent_mark && json::same_json(
                    left,
                    empty_object(),
                ) {
                    SettingsView::Remove
                } else if json::printed(left) == t {
                    SettingsView::Keep
                } else {
                    SettingsView::Write(json::printed(left))
                }
            },
        },
    }
}

/// What is to be done to take the hooks out of a target's settings.
pub fn uninstall_target(original: &Option<String>, marker: &str, kept: &Kept) -> (r: SettingsAction)
    ensures
        r@ == uninstall_plan(text::opt_text(*original), marker@, *kept),
{
    let t = match original {
        Some(t) => t,
        None => {
            return SettingsAction::Keep;
        },
    };
    let root = match json::parse_json(t.as_str()) {
        Some(root) => root,
        None => {
            return SettingsAction::Keep;
        },
    };
    let left = rate_limit_hook::remove_event_entries(&root, marker);
    proof {
        lemma_cleaned_readable(root@, marker@);
        lemma_readable_numbers(left@);
    }
    match &kept.backup {
        Some(backup) => {
            let back = if rate_limit_hook::config_has_marker(&root, marker) {
                text_is_base(&kept.backup, &left, marker)
            } else {
                text_says(&kept.backup, &left)
            };
            if back {
                return if text::same_text(backup.as_str(), t.as_str()) {
                    SettingsAction::Keep
                } else {
                    SettingsAction::Write(backup.clone())
                };
            }
        },
        None => {
            let nothing = Json::Object(Vec::new());
            assert(nothing@ == empty_object());
            if kept.absent_mark && left.same(&nothing) {
                return SettingsAction::Remove;
            }
        },
    }
    let content = json::pretty(&left);
    if text::same_text(content.as_str(), t.as_str()) {
        SettingsAction::Keep
    } else {
        SettingsAction::Write(content)
    }
}

// ---------------------------------------------------------------------------
// The state of the hooks
// ---------------------------------------------------------------------------

/// The state of one target: whether it has settings, and whether they hold the hooks.
#[derive(Clone, Copy)]
pub struct TargetStatus {
    pub exists: bool,
    pub installed: bool,
}

/// The state of a target, given the text of its settings where it can be read.
pub fn target_status(exists: bool, settings: &Option<String>, marker: &str) -> (r: TargetStatus)
    ensures
        r.exists == exists,
        r.installed == match text::opt_text(*settings) {
            Some(t) => json::parsed(t) is Some && rate_limit_hook::is_marked(
                json::parsed(t)->0,
                marker@,
            ),
            None => false,
        },
{
    let installed = match settings {
        Some(t) => match json::parse_json(t.as_str()) {
            Some(root) => rate_limit_hook::config_has_marker(&root, marker),
            None => false,
        },
        None => false,
    };
    TargetStatus { exists, installed }
}

/// Some target's settings hold the hooks.
pub open spec fn any_installed(targets: Seq<TargetStatus>) -> bool {
    exists|i: int| 0 <= i < targets.len() && (#[trigger] targets[i]).installed
}

/// How the state of one target is shown.
pub open spec fn target_json(label: Seq<char>, path: Seq<char>, status: TargetStatus) -> JsonView {
    JsonView::Object(
        map![
            "label"@ => JsonView::Text(label),
            "path"@ => JsonView::Text(path),
            "exists"@ => JsonView::Bool(status.exists),
            "installed"@ => JsonView::Bool(status.installed)
        ],
    )
}

/// How the state of the targets is shown.
pub open spec fn targets_json(
    targets: Seq<rate_limit_hook::HookTarget>,
    states: Seq<TargetStatus>,
) -> Seq<JsonView> {
    Seq::new(
        targets.len(),
        |i: int| target_json(targets[i].label@, targets[i].settings.text@, states[i]),
    )
}

/// How the state of the hooks is shown: they are in force where the script is there and some
/// target's settings hold them.
pub open spec fn status_json(
    layout: HookLayout,
    script_exists: bool,
    states: Seq<TargetStatus>,
) -> JsonView {
    JsonView::Object(
        map![
            "scriptPath"@ => JsonView::Text(layout.script.text@),
            "scriptExists"@ => JsonView::Bool(script_exists),
            "eventsPath"@ => JsonView::Text(layout.events.text@),
            "installed"@ => JsonView::Bool(script_exists && any_installed(states)),
            "targets"@ => JsonView::Array(targets_json(layout.targets@, states))
        ],
    )
}

/// The state of the hooks.
pub fn hook_status(layout: &HookLayout, script_exists: bool, states: &Vec<TargetStatus>) -> (r: Json)
    requires
        states@.len() == layout.targets@.len(),
    ensures
        r@ == status_json(*layout, script_exists, states@),
{
    let mut configured = false;
    let mut targets: Vec<Json> = Vec::new();
    let mut i: usize = 0;
    while i < states.len()
        invariant
            i <= states@.len(),
            states@.len() == layout.targets@.len(),
            configured == any_installed(states@.take(i as int)),
            json::item_views(targets@) == targets_json(
                layout.targets@.take(i as int),
                states@.take(i as int),
            ),
        decreases states@.len() - i,
    {
        let ghost before = targets@;
        let ghost known = configured;
        let state: TargetStatus = states[i];
        let target = &layout.targets[i];
        let fields = json::with_field(Vec::new(), "label", json::text_value(target.label));
        let fields = json::with_field(
            fields,
            "path",
            json::text_value(target.settings.text.as_str()),
        );
        let fields = json::with_field(fields, "exists", Json::Bool(state.exists));
        let fields = json::with_field(fields, "installed", Json::Bool(state.installed));
        let value = Json::Object(fields);
        let ghost shown = value@;
        targets.push(value);
        if state.installed {
            configured = true;
        }
        proof {
            assert(targets@.drop_last() =~= before);
            let prior = targets_json(layout.targets@.take(i as int), states@.take(i as int));
            assert(shown == target_json(target.label@, target.settings.text@, state));
            assert(json::item_views(targets@) == prior.push(shown));
            assert(prior.push(shown) =~= targets_json(
                layout.targets@.take(i + 1),
                states@.take(i + 1),
            ));
            let next = states@.take(i + 1);
            if known {
                let k = choose|k: int|
                    0 <= k < i && (#[trigger] states@.take(i as int)[k]).installed;
                assert(next[k].installed);
            }
            if state.installed {
                assert(next[i as int].installed);
            }
            if any_installed(next) && !state.installed {
                let k = choose|k: int| 0 <= k < next.len() && (#[trigger] next[k]).installed;
                assert(states@.take(i as int)[k].installed);
            }
        }
        i += 1;
    }
    assert(states@.take(states@.len() as int) =~= states@);
    assert(layout.targets@.take(states@.len() as int) =~= layout.targets@);
    let fields = json::with_field(
        Vec::new(),
        "scriptPath",
        json::text_value(layout.script.text.as_str()),
    );
    let fields = json::with_field(fields, "scriptExists", Json::Bool(script_exists));
    let fields = json::with_field(
        fields,
        "eventsPath",
        json::text_value(layout.events.text.as_str()),
    );
    let fields = json::with_field(fields, "installed", Json::Bool(script_exists && configured));
    let fields = json::with_field(fields, "targets", Json::Array(targets));
    Json::Object(fields)
}

/// Whether the hooks are in force, by their state.
pub fn is_installed(status: &Json) -> (r: bool)
    ensures
        r == (json::field(status@, "installed"@) == Some(JsonView::Bool(true))),
{
    match status.get("installed") {
        Some(Json::Bool(b)) => *b,
        _ => false,
    }
}

/// The complaints about settings, each after their path.
pub open spec fn complaints(errors: Seq<(String, String)>) -> Seq<Seq<char>> {
    errors.map_values(|e: (String, String)| e.0@ + "："@ + e.1@)
}

/// All complaints as one; `None` where there is none.
pub fn combined_errors(errors: &Vec<(String, String)>) -> (r: Option<String>)
    ensures
        text::opt_text(r) == if errors@.len() == 0 {
            None
        } else {
            Some(text::joined(complaints(errors@), "；"@))
        },
{
    if errors.len() == 0 {
        return None;
    }
    let mut parts: Vec<String> = Vec::new();
    let mut i: usize = 0;
    while i < errors.len()
        invariant
            i <= errors@.len(),
            text::texts(parts@) == complaints(errors@.take(i as int)),
        decreases errors@.len() - i,
    {
        let ghost before = parts@;
        let part = text::concat3(errors[i].0.as_str(), "：", errors[i].1.as_str());
        parts.push(part);
        assert(text::texts(parts@) =~= text::texts(before).push(part@));
        assert(complaints(errors@.take(i + 1)) =~= complaints(errors@.take(i as int)).push(part@));
        i += 1;
    }
    assert(errors@.take(errors@.len() as int) =~= errors@);
    Some(text::join_texts(&parts, "；"))
}

// ---------------------------------------------------------------------------
// Laws
// ---------------------------------------------------------------------------

proof fn lemma_event_names()
    ensures
        rate_limit_hook::STOP_EVENT@ != rate_limit_hook::FINAL_STOP_EVENT@,
{
    reveal_strlit("Stop");
    reveal_strlit("FinalStop");
    assert(rate_limit_hook::STOP_EVENT@.len() != rate_limit_hook::FINAL_STOP_EVENT@.len());
}

proof fn lemma_our_entry_is_ours(command: Seq<char>, marker: Seq<char>)
    requires
        rate_limit_hook::holds_marker(command, marker),
    ensures
        rate_limit_hook::is_ours(rate_limit_hook::our_entry(command), marker),
{
    reveal_strlit("matcher");
    reveal_strlit("hooks");
    reveal_strlit("type");
    reveal_strlit("command");
    assert("matcher"@.len() != "hooks"@.len());
    assert("type"@.len() != "command"@.len());
    let hook = JsonView::Object(
        map!["type"@ => JsonView::Text("command"@), "command"@ => JsonView::Text(command)],
    );
    assert(json::field(hook, "type"@) == Some(JsonView::Text("command"@)));
    assert(json::field(hook, "command"@) == Some(JsonView::Text(command)));
    assert(rate_limit_hook::runs_marker(hook, marker));
    let entry = rate_limit_hook::our_entry(command);
    assert(json::array_of(json::field(entry, "hooks"@)) == Some(seq![hook]));
    let hooks = json::array_of(json::field(entry, "hooks"@))->0;
    assert(rate_limit_hook::runs_marker(hooks[0], marker));
}

proof fn lemma_others_of_others(list: Seq<JsonView>, marker: Seq<char>)
    requires
        forall|i: int| 0 <= i < list.len() ==> !rate_limit_hook::is_ours(#[trigger] list[i], marker),
    ensures
        rate_limit_hook::others(list, marker) == list,
    decreases list.len(),
{
    if list.len() > 0 {
        let front = list.drop_last();
        assert forall|i: int| 0 <= i < front.len() implies !rate_limit_hook::is_ours(
            #[trigger] front[i],
            marker,
        ) by {
            assert(front[i] == list[i]);
        }
        lemma_others_of_others(front, marker);
        assert(!rate_limit_hook::is_ours(list[list.len() - 1], marker));
        assert(front.push(list.last()) =~= list);
    }
}

/// To put the switcher's entry in and take the others again gives the same others.
proof fn lemma_others_after_entry(list: Seq<JsonView>, command: Seq<char>, marker: Seq<char>)
    requires
        rate_limit_hook::holds_marker(command, marker),
    ensures
        rate_limit_hook::others(
            rate_limit_hook::others(list, marker).push(rate_limit_hook::our_entry(command)),
            marker,
        ) == rate_limit_hook::others(list, marker),
{
    let o = rate_limit_hook::others(list, marker);
    lemma_others(list, marker);
    lemma_our_entry_is_ours(command, marker);
    lemma_others_of_others(o, marker);
    assert(o.push(rate_limit_hook::our_entry(command)).drop_last() =~= o);
}

/// The hooks in the settings; none where there are none.
pub open spec fn hooks_in(root: JsonView) -> Map<Seq<char>, JsonView> {
    match json::field(root, "hooks"@) {
        Some(JsonView::Object(h)) => h,
        _ => Map::empty(),
    }
}

/// The entries for the event; none where there are none.
pub open spec fn entries_for(root: JsonView, event: Seq<char>) -> Seq<JsonView> {
    match json::array_of(json::field(JsonView::Object(hooks_in(root)), event)) {
        Some(list) => list,
        None => seq![],
    }
}

/// The event is one of the two that the switcher's hooks are registered for.
pub open spec fn is_hook_event(event: Seq<char>) -> bool {
    event == rate_limit_hook::STOP_EVENT@ || event == rate_limit_hook::FINAL_STOP_EVENT@
}

proof fn lemma_installed(root: JsonView, command: Seq<char>, marker: Seq<char>)
    requires
        rate_limit_hook::installed(root, command, marker) is Ok,
    ensures
        root is Object,
        rate_limit_hook::installed(root, command, marker)->Ok_0 == JsonView::Object(
            root->Object_0.insert(
                "hooks"@,
                JsonView::Object(
                    hooks_in(root).insert(
                        rate_limit_hook::STOP_EVENT@,
                        JsonView::Array(
                            rate_limit_hook::others(
                                entries_for(root, rate_limit_hook::STOP_EVENT@),
                                marker,
                            ).push(rate_limit_hook::our_entry(command)),
                        ),
                    ).insert(
                        rate_limit_hook::FINAL_STOP_EVENT@,
                        JsonView::Array(
                            rate_limit_hook::others(
                                entries_for(root, rate_limit_hook::FINAL_STOP_EVENT@),
                                marker,
                            ).push(rate_limit_hook::our_entry(command)),
                        ),
                    ),
                ),
            ),
        ),
        json::field(root, "hooks"@) is Some ==> json::field(root, "hooks"@)->0 is Object,
        forall|e: Seq<char>|
            is_hook_event(e) && hooks_in(root).contains_key(e) ==> #[trigger] hooks_in(
                root,
            )[e] is Array,
{
    lemma_event_names();
    let stop = rate_limit_hook::STOP_EVENT@;
    let first = rate_limit_hook::upserted(root, stop, command, marker)->Ok_0;
    let o = root->Object_0;
    let h = hooks_in(root);
    let h1 = h.insert(
        stop,
        JsonView::Array(
            rate_limit_hook::others(entries_for(root, stop), marker).push(
                rate_limit_hook::our_entry(command),
            ),
        ),
    );
    assert(first == JsonView::Object(o.insert("hooks"@, JsonView::Object(h1))));
    assert(hooks_in(first) == h1);
    let new = rate_limit_hook::installed(root, command, marker)->Ok_0;
    let last = rate_limit_hook::FINAL_STOP_EVENT@;
    assert(h1.contains_key(last) == h.contains_key(last));
    let h2 = h1.insert(
        last,
        JsonView::Array(
            rate_limit_hook::others(entries_for(root, last), marker).push(
                rate_limit_hook::our_entry(command),
            ),
        ),
    );
    assert(o.insert("hooks"@, JsonView::Object(h1)).insert("hooks"@, JsonView::Object(h2))
        =~= o.insert("hooks"@, JsonView::Object(h2)));
}

/// Other keys of the settings, other events and the entries of others stay as they are when the
/// hooks are put in; each of the two events gets one entry of the switcher.
pub proof fn law_install_keeps_what_is_not_ours(
    root: JsonView,
    command: Seq<char>,
    marker: Seq<char>,
    key: Seq<char>,
    event: Seq<char>,
)
    requires
        rate_limit_hook::installed(root, command, marker) is Ok,
        key != "hooks"@,
    ensures
        ({
            let new = rate_limit_hook::installed(root, command, marker)->Ok_0;
            &&& json::field(new, key) == json::field(root, key)
            &&& is_hook_event(event) ==> entries_for(new, event) == rate_limit_hook::others(
                entries_for(root, event),
                marker,
            ).push(rate_limit_hook::our_entry(command))
            &&& !is_hook_event(event) ==> json::field(JsonView::Object(hooks_in(new)), event)
                == json::field(JsonView::Object(hooks_in(root)), event)
        }),
{
    lemma_installed(root, command, marker);
    lemma_event_names();
}

/// Other keys of the settings, other events and the entries of others stay as they are when the
/// hooks are taken out, and no entry of the switcher is left.
pub proof fn law_uninstall_keeps_what_is_not_ours(
    root: JsonView,
    marker: Seq<char>,
    key: Seq<char>,
    event: Seq<char>,
)
    requires
        key != "hooks"@,
    ensures
        json::field(rate_limit_hook::cleaned(root, marker), key) == json::field(root, key),
        is_hook_event(event) ==> entries_for(rate_limit_hook::cleaned(root, marker), event)
            == rate_limit_hook::others(entries_for(root, event), marker),
        !is_hook_event(event) ==> json::field(
            JsonView::Object(hooks_in(rate_limit_hook::cleaned(root, marker))),
            event,
        ) == json::field(JsonView::Object(hooks_in(root)), event),
        !rate_limit_hook::is_marked(rate_limit_hook::cleaned(root, marker), marker),
{
    lemma_event_names();
    let stop = rate_limit_hook::STOP_EVENT@;
    let last = rate_limit_hook::FINAL_STOP_EVENT@;
    let left = rate_limit_hook::cleaned(root, marker);
    assert(rate_limit_hook::others(Seq::<JsonView>::empty(), marker) =~= seq![]);
    match (root, json::field(root, "hooks"@)) {
        (JsonView::Object(o), Some(JsonView::Object(h))) => {
            let h1 = rate_limit_hook::event_cleaned(h, stop, marker);
            let h2 = rate_limit_hook::event_cleaned(h1, last, marker);
            assert(h1.contains_key(last) == h.contains_key(last));
            assert(h.contains_key(last) ==> h1[last] == h[last]);
            assert(hooks_in(left) == h2);
            assert(json::array_of(json::field(JsonView::Object(h2), stop)) == json::array_of(
                json::field(JsonView::Object(h1), stop),
            ));
            lemma_others(entries_for(root, stop), marker);
            lemma_others(entries_for(root, last), marker);
            assert(entries_for(left, stop) == rate_limit_hook::others(
                entries_for(root, stop),
                marker,
            ));
            assert(entries_for(left, last) == rate_limit_hook::others(
                entries_for(root, last),
                marker,
            ));
        },
        _ => {
            assert(left == root);
            assert(hooks_in(root) == Map::<Seq<char>, JsonView>::empty());
        },
    }
}

proof fn lemma_cleaned_after_installed(root: JsonView, command: Seq<char>, marker: Seq<char>)
    requires
        rate_limit_hook::installed(root, command, marker) is Ok,
        rate_limit_hook::holds_marker(command, marker),
    ensures
        rate_limit_hook::cleaned(
            rate_limit_hook::installed(root, command, marker)->Ok_0,
            marker,
        ) == rate_limit_hook::cleaned(root, marker),
{
    lemma_installed(root, command, marker);
    lemma_event_names();
    let stop = rate_limit_hook::STOP_EVENT@;
    let last = rate_limit_hook::FINAL_STOP_EVENT@;
    let new = rate_limit_hook::installed(root, command, marker)->Ok_0;
    let o = root->Object_0;
    let h = hooks_in(root);
    let g = hooks_in(new);
    lemma_others_after_entry(entries_for(root, stop), command, marker);
    lemma_others_after_entry(entries_for(root, last), command, marker);
    assert(rate_limit_hook::others(Seq::<JsonView>::empty(), marker) =~= seq![]);
    let h1 = rate_limit_hook::event_cleaned(h, stop, marker);
    let g1 = rate_limit_hook::event_cleaned(g, stop, marker);
    let h2 = rate_limit_hook::event_cleaned(h1, last, marker);
    let g2 = rate_limit_hook::event_cleaned(g1, last, marker);
    assert(g.contains_key(stop) && g.contains_key(last));
    assert(h1.contains_key(last) == h.contains_key(last));
    assert(h.contains_key(last) ==> h1[last] == h[last]);
    assert(g1.contains_key(last) && g1[last] == g[last]);
    assert forall|k: Seq<char>| #[trigger] g2.contains_key(k) == h2.contains_key(k) by {
        if h.contains_key(stop) {
            assert(hooks_in(root)[stop] is Array);
        }
        if h.contains_key(last) {
            assert(hooks_in(root)[last] is Array);
        }
    }
    assert forall|k: Seq<char>| g2.contains_key(k) implies #[trigger] g2[k] == h2[k] by {
        assert(h2.contains_key(k));
        if h.contains_key(stop) {
            assert(hooks_in(root)[stop] is Array);
        }
        if h.contains_key(last) {
            assert(hooks_in(root)[last] is Array);
        }
    }
    assert(g2 =~= h2);
    if json::field(root, "hooks"@) is None {
        assert(h2 =~= Map::<Seq<char>, JsonView>::empty());
    }
    assert(rate_limit_hook::cleaned(new, marker) =~= rate_limit_hook::cleaned(root, marker)) by {
        let n = new->Object_0;
        assert(n.remove("hooks"@) =~= o.remove("hooks"@));
        assert(n.insert("hooks"@, JsonView::Object(h2)) =~= o.insert(
            "hooks"@,
            JsonView::Object(h2),
        ));
        if json::field(root, "hooks"@) is None {
            assert(o.remove("hooks"@) =~= o);
        }
    }
}

proof fn lemma_installed_twice(root: JsonView, command: Seq<char>, marker: Seq<char>)
    requires
        rate_limit_hook::installed(root, command, marker) is Ok,
        rate_limit_hook::holds_marker(command, marker),
    ensures
        rate_limit_hook::installed(
            rate_limit_hook::installed(root, command, marker)->Ok_0,
            command,
            marker,
        ) == rate_limit_hook::installed(root, command, marker),
{
    lemma_installed(root, command, marker);
    lemma_event_names();
    let stop = rate_limit_hook::STOP_EVENT@;
    let last = rate_limit_hook::FINAL_STOP_EVENT@;
    let new = rate_limit_hook::installed(root, command, marker)->Ok_0;
    lemma_others_after_entry(entries_for(root, stop), command, marker);
    lemma_others_after_entry(entries_for(root, last), command, marker);
    let n = new->Object_0;
    let g = hooks_in(new);
    assert(n["hooks"@] == JsonView::Object(g));
    assert(g.insert(stop, g[stop]) =~= g);
    assert(g.insert(last, g[last]) =~= g);
    assert(n.insert("hooks"@, JsonView::Object(g)) =~= n);
    assert(rate_limit_hook::upserted(new, stop, command, marker) == Ok::<JsonView, Seq<char>>(
        new,
    ));
    assert(rate_limit_hook::upserted(new, last, command, marker) == Ok::<JsonView, Seq<char>>(
        new,
    ));
}

proof fn lemma_command_holds_marker(script: Seq<char>, kind: rate_limit_hook::ScriptKind)
    ensures
        rate_limit_hook::holds_marker(rate_limit_hook::command_for(script, kind), script),
{
    let command = rate_limit_hook::command_for(script, kind);
    match kind {
        rate_limit_hook::ScriptKind::Sh => {
            let path = rate_limit_hook::quoted(script);
            let at = "sh "@.len();
            assert(command.subrange(at as int, (at + path.len()) as int) =~= path);
            assert(text::occurs_at(command, path, at as int));
        },
        rate_limit_hook::ScriptKind::Cmd => {
            let at = "cmd /c \""@.len();
            assert(command.subrange(at as int, (at + script.len()) as int) =~= script);
            assert(text::occurs_at(command, script, at as int));
        },
    }
}

/// The switcher knows its own entries again, whatever the path of the script.
pub proof fn law_own_entries_are_known(script: Seq<char>, kind: rate_limit_hook::ScriptKind)
    ensures
        rate_limit_hook::is_ours(
            rate_limit_hook::our_entry(rate_limit_hook::command_for(script, kind)),
            script,
        ),
{
    lemma_command_holds_marker(script, kind);
    lemma_our_entry_is_ours(rate_limit_hook::command_for(script, kind), script);
}

/// To put the hooks in and take them out again leaves the same as to take them out at once: what
/// the switcher has put in goes, and nothing else.
pub proof fn law_uninstall_undoes_install(
    root: JsonView,
    script: Seq<char>,
    kind: rate_limit_hook::ScriptKind,
)
    requires
        rate_limit_hook::installed(
            root,
            rate_limit_hook::command_for(script, kind),
            script,
        ) is Ok,
    ensures
        rate_limit_hook::cleaned(
            rate_limit_hook::installed(
                root,
                rate_limit_hook::command_for(script, kind),
                script,
            )->Ok_0,
            script,
        ) == rate_limit_hook::cleaned(root, script),
{
    lemma_command_holds_marker(script, kind);
    lemma_cleaned_after_installed(root, rate_limit_hook::command_for(script, kind), script);
}

/// To put the hooks in twice is to put them in once.
pub proof fn law_install_is_idempotent(
    root: JsonView,
    script: Seq<char>,
    kind: rate_limit_hook::ScriptKind,
)
    requires
        rate_limit_hook::installed(
            root,
            rate_limit_hook::command_for(script, kind),
            script,
        ) is Ok,
    ensures
        ({
            let command = rate_limit_hook::command_for(script, kind);
            let new = rate_limit_hook::installed(root, command, script);
            rate_limit_hook::installed(new->Ok_0, command, script) == new
        }),
{
    lemma_command_holds_marker(script, kind);
    lemma_installed_twice(root, rate_limit_hook::command_for(script, kind), script);
}

/// Settings that the hooks were put into are not written again when they are put in again.
pub proof fn law_second_install_writes_nothing(
    original: Option<Seq<char>>,
    script: Seq<char>,
    kind: rate_limit_hook::ScriptKind,
    kept: Kept,
    kept_later: Kept,
    content: Seq<char>,
)
    requires
        ({
            let command = rate_limit_hook::command_for(script, kind);
            &&& install_plan(original, command, script, kept) is Ok
            &&& install_plan(original, command, script, kept)->Ok_0.settings == Ok::<
                SettingsView,
                Seq<char>,
            >(SettingsView::Write(content))
            &&& json::reads_back(installed_root(original, command, script))
        }),
    ensures
        ({
            let plan = install_plan(
                Some(content),
                rate_limit_hook::command_for(script, kind),
                script,
                kept_later,
            );
            plan is Ok && plan->Ok_0.settings == Ok::<SettingsView, Seq<char>>(SettingsView::Keep)
        }),
{
    law_install_is_idempotent(root_of(original), script, kind);
}

/// The text of the settings after an action.
pub open spec fn after(original: Option<Seq<char>>, action: SettingsView) -> Option<Seq<char>> {
    match action {
        SettingsView::Keep => original,
        SettingsView::Write(t) => Some(t),
        SettingsView::Remove => None,
    }
}

/// The text of the copy after an action.
pub open spec fn copy_after(backup: Option<Seq<char>>, action: BackupView) -> Option<Seq<char>> {
    match action {
        BackupView::Write(t) => Some(t),
        _ => backup,
    }
}

proof fn lemma_installed_is_marked(root: JsonView, command: Seq<char>, marker: Seq<char>)
    requires
        rate_limit_hook::installed(root, command, marker) is Ok,
        rate_limit_hook::is_ours(rate_limit_hook::our_entry(command), marker),
    ensures
        rate_limit_hook::is_marked(
            rate_limit_hook::installed(root, command, marker)->Ok_0,
            marker,
        ),
{
    lemma_installed(root, command, marker);
    let new = rate_limit_hook::installed(root, command, marker)->Ok_0;
    let hooks = json::field(new, "hooks"@)->0;
    let last = rate_limit_hook::FINAL_STOP_EVENT@;
    let list = json::array_of(json::field(hooks, last))->0;
    assert(rate_limit_hook::is_ours(list[list.len() - 1], marker));
    assert(rate_limit_hook::event_is_marked(hooks, last, marker));
}

/// A change that the user made is not written over with the copy: settings that hold no entry of
/// the switcher, and stay, say afterwards what was left of them.
pub proof fn law_users_change_stays(
    original: Seq<char>,
    root: JsonView,
    marker: Seq<char>,
    kept: Kept,
)
    requires
        json::parsed(original) == Some(root),
        !rate_limit_hook::is_marked(root, marker),
        json::reads_back(rate_limit_hook::cleaned(root, marker)),
        json::readable(rate_limit_hook::cleaned(root, marker)),
        !(uninstall_plan(Some(original), marker, kept) is Remove),
    ensures
        says(
            after(Some(original), uninstall_plan(Some(original), marker, kept)),
            rate_limit_hook::cleaned(root, marker),
        ),
{
    json::lemma_same_json_reflexive(rate_limit_hook::cleaned(root, marker), 127);
}

/// Settings come back byte for byte: where the hooks were put into settings that held no trace
/// of them, the copy is the text as it was, it stays so when the hooks are put in again, and when
/// they are taken out that text is put back. (A copy from before that says the same in other words
/// stays, and comes back instead.)
pub proof fn law_settings_are_restored_byte_for_byte(
    original: Seq<char>,
    root: JsonView,
    script: Seq<char>,
    kind: rate_limit_hook::ScriptKind,
    kept: Kept,
    kept_later: Kept,
)
    requires
        json::parsed(original) == Some(root),
        json::readable(root),
        !text::includes(original, script),
        !rate_limit_hook::is_marked(root, script),
        says(text::opt_text(kept.backup), root) ==> text::opt_text(kept.backup) == Some(original),
        ({
            let command = rate_limit_hook::command_for(script, kind);
            &&& rate_limit_hook::installed(root, command, script) is Ok
            &&& json::reads_back(installed_root(Some(original), command, script))
            &&& text::opt_text(kept_later.backup) == copy_after(
                text::opt_text(kept.backup),
                install_plan(Some(original), command, script, kept)->Ok_0.backup,
            )
        }),
    ensures
        ({
            let command = rate_limit_hook::command_for(script, kind);
            let plan = install_plan(Some(original), command, script, kept);
            let content = after(Some(original), plan->Ok_0.settings->Ok_0);
            &&& plan is Ok
            &&& plan->Ok_0.settings is Ok
            &&& text::opt_text(kept_later.backup) == Some(original)
            &&& install_plan(content, command, script, kept_later)->Ok_0.backup == BackupView::Keep
            &&& after(content, uninstall_plan(content, script, kept_later)) == Some(original)
        }),
{
    let command = rate_limit_hook::command_for(script, kind);
    law_uninstall_undoes_install(root, script, kind);
    law_own_entries_are_known(script, kind);
    lemma_installed_is_marked(root, command, script);
    lemma_cleaned_readable(root, script);
    json::lemma_same_json_reflexive(rate_limit_hook::cleaned(root, script), 127);
}

/// Settings that were not there are not there again: they are made to put the hooks in, no copy
/// is made of them when the hooks are put in again, and they go when the hooks are taken out.
pub proof fn law_missing_settings_are_missing_again(
    script: Seq<char>,
    kind: rate_limit_hook::ScriptKind,
    kept: Kept,
    kept_later: Kept,
)
    requires
        !kept.backup_exists,
        !kept.absent_mark,
        kept_later.backup is None,
        kept_later.absent_mark,
        json::reads_back(
            installed_root(None, rate_limit_hook::command_for(script, kind), script),
        ),
    ensures
        ({
            let plan = install_plan(None, rate_limit_hook::command_for(script, kind), script, kept);
            &&& plan is Ok
            &&& plan->Ok_0.backup == BackupView::MarkAbsent
            &&& plan->Ok_0.settings matches Ok(SettingsView::Write(content)) && uninstall_plan(
                Some(content),
                script,
                kept_later,
            ) == SettingsView::Remove && install_plan(
                Some(content),
                rate_limit_hook::command_for(script, kind),
                script,
                kept_later,
            )->Ok_0.backup == BackupView::Keep
        }),
{
    let root = empty_object();
    let command = rate_limit_hook::command_for(script, kind);
    lemma_event_names();
    assert(rate_limit_hook::installed(root, command, script) is Ok);
    law_uninstall_undoes_install(root, script, kind);
    law_own_entries_are_known(script, kind);
    lemma_installed_is_marked(root, command, script);
    assert(rate_limit_hook::cleaned(root, script) == root);
    assert(json::same_json(root, root));
}

proof fn lemma_same_fields(a: JsonView, b: JsonView, key: Seq<char>)
    requires
        json::same_json(a, b),
    ensures
        json::field(a, key) is Some <==> json::field(b, key) is Some,
        json::field(a, key) is Some ==> json::same_json(
            json::field(a, key)->0,
            json::field(b, key)->0,
        ),
{
    match (a, b) {
        (JsonView::Object(s), JsonView::Object(t)) => {
            assert(s.dom().contains(key) == t.dom().contains(key));
        },
        _ => {},
    }
}

proof fn lemma_same_is_ours(a: JsonView, b: JsonView, marker: Seq<char>)
    requires
        json::same_json(a, b),
        rate_limit_hook::is_ours(a, marker),
    ensures
        rate_limit_hook::is_ours(b, marker),
{
    lemma_same_fields(a, b, "hooks"@);
    let s = json::array_of(json::field(a, "hooks"@))->0;
    let t = json::array_of(json::field(b, "hooks"@))->0;
    let i = choose|i: int| 0 <= i < s.len() && rate_limit_hook::runs_marker(#[trigger] s[i], marker);
    assert(json::same_json(s[i], t[i]));
    lemma_same_fields(s[i], t[i], "type"@);
    lemma_same_fields(s[i], t[i], "command"@);
    assert(rate_limit_hook::runs_marker(t[i], marker));
}

proof fn lemma_same_event_marked(
    a: JsonView,
    b: JsonView,
    event: Seq<char>,
    marker: Seq<char>,
)
    requires
        json::same_json(a, b),
        rate_limit_hook::event_is_marked(a, event, marker),
    ensures
        rate_limit_hook::event_is_marked(b, event, marker),
{
    lemma_same_fields(a, b, event);
    let s = json::array_of(json::field(a, event))->0;
    let t = json::array_of(json::field(b, event))->0;
    let i = choose|i: int| 0 <= i < s.len() && rate_limit_hook::is_ours(#[trigger] s[i], marker);
    assert(json::same_json(s[i], t[i]));
    lemma_same_is_ours(s[i], t[i], marker);
}

/// Settings that say the same both hold an entry of the switcher, or neither does.
proof fn lemma_same_is_marked(a: JsonView, b: JsonView, marker: Seq<char>)
    requires
        json::same_json(a, b),
        rate_limit_hook::is_marked(a, marker),
    ensures
        rate_limit_hook::is_marked(b, marker),
{
    lemma_same_fields(a, b, "hooks"@);
    let s = json::field(a, "hooks"@)->0;
    let t = json::field(b, "hooks"@)->0;
    if rate_limit_hook::event_is_marked(s, rate_limit_hook::STOP_EVENT@, marker) {
        lemma_same_event_marked(s, t, rate_limit_hook::STOP_EVENT@, marker);
    } else {
        lemma_same_event_marked(s, t, rate_limit_hook::FINAL_STOP_EVENT@, marker);
    }
}

/// No entry of the switcher is left in settings that the hooks were taken out of.
pub proof fn law_uninstall_leaves_no_entry(
    original: Seq<char>,
    root: JsonView,
    marker: Seq<char>,
    kept: Kept,
)
    requires
        json::parsed(original) == Some(root),
        json::reads_back(rate_limit_hook::cleaned(root, marker)),
    ensures
        match after(Some(original), uninstall_plan(Some(original), marker, kept)) {
            Some(t) => json::parsed(t) is Some && !rate_limit_hook::is_marked(
                json::parsed(t)->0,
                marker,
            ),
            None => true,
        },
{
    let other = Seq::<char>::empty();
    reveal_strlit("hooks");
    assert("hooks"@.len() != other.len());
    law_uninstall_keeps_what_is_not_ours(root, marker, other, other);
    match text::opt_text(kept.backup) {
        Some(t) => {
            let left = rate_limit_hook::cleaned(root, marker);
            if says(Some(t), left) && rate_limit_hook::is_marked(json::parsed(t)->0, marker) {
                lemma_same_is_marked(json::parsed(t)->0, left, marker);
            }
        },
        None => {},
    }
}

/// The text of settings that are there is copied as it is, unless it holds the switcher's path or
/// entries: then what it says without them is. No copy is made where there is one of what the
/// settings say, nor of settings that were made by the switcher.
pub proof fn law_settings_are_copied_as_they_are(
    t: Seq<char>,
    root: JsonView,
    command: Seq<char>,
    marker: Seq<char>,
    kept: Kept,
)
    requires
        json::parsed(t) == Some(root),
    ensures
        ({
            let plan = install_plan(Some(t), command, marker, kept);
            let fresh = kept.backup is None && !kept.absent_mark;
            &&& plan is Ok
            &&& fresh && !text::includes(t, marker) && !rate_limit_hook::is_marked(root, marker)
                ==> plan->Ok_0.backup == BackupView::Write(t)
            &&& fresh && (text::includes(t, marker) || rate_limit_hook::is_marked(root, marker))
                ==> plan->Ok_0.backup == BackupView::Write(
                json::printed(rate_limit_hook::cleaned(root, marker)),
            )
            &&& !rate_limit_hook::is_marked(root, marker) && kept.backup is Some && json::parsed(
                kept.backup->0@,
            ) == Some(root) && json::same_json(root, root) ==> plan->Ok_0.backup
                == BackupView::Keep
            &&& plan->Ok_0.backup != BackupView::MarkAbsent
        }),
{
}

/// A copy of the settings is replaced only by what the settings say now: their text, or what they
/// say without the switcher's entries.
pub proof fn law_copy_is_of_the_settings(
    t: Seq<char>,
    root: JsonView,
    command: Seq<char>,
    marker: Seq<char>,
    kept: Kept,
    content: Seq<char>,
)
    requires
        json::parsed(t) == Some(root),
        install_plan(Some(t), command, marker, kept)->Ok_0.backup == BackupView::Write(content),
    ensures
        content == t || content == json::printed(rate_limit_hook::cleaned(root, marker)),
        rate_limit_hook::is_marked(root, marker) ==> content == json::printed(
            rate_limit_hook::cleaned(root, marker),
        ),
{
}

/// That there were no settings is noted where nothing was kept of them, and only there; what is
/// put in then is put into an empty object.
pub proof fn law_missing_settings_are_noted(command: Seq<char>, marker: Seq<char>, kept: Kept)
    ensures
        ({
            let plan = install_plan(None, command, marker, kept);
            &&& plan is Ok
            &&& plan->Ok_0.backup == if kept.backup_exists || kept.absent_mark {
                BackupView::Keep
            } else {
                BackupView::MarkAbsent
            }
            &&& rate_limit_hook::installed(
                JsonView::Object(Map::empty()),
                command,
                marker,
            ) matches Ok(new) && plan->Ok_0.settings == Ok::<SettingsView, Seq<char>>(
                SettingsView::Write(json::printed(new)),
            )
        }),
{
    lemma_event_names();
}

/// Settings that are not JSON are left alone, whether the hooks are to be put in or taken out; and
/// nothing is taken out of settings that are not there.
pub proof fn law_unreadable_settings_are_left_alone(
    t: Seq<char>,
    command: Seq<char>,
    marker: Seq<char>,
    kept: Kept,
)
    requires
        json::parsed(t) is None,
    ensures
        install_plan(Some(t), command, marker, kept) == Err::<InstallView, Seq<char>>(
            "不是合法 JSON，已跳过（未做任何改动）"@,
        ),
        uninstall_plan(Some(t), marker, kept) == SettingsView::Keep,
        uninstall_plan(None, marker, kept) == SettingsView::Keep,
{
}

/// The settings are written with the hooks put in, unless that is what they are already; where
/// they cannot be put in, the complaint is told.
pub proof fn law_settings_are_written_with_the_hooks(
    t: Seq<char>,
    root: JsonView,
    command: Seq<char>,
    marker: Seq<char>,
    kept: Kept,
)
    requires
        json::parsed(t) == Some(root),
    ensures
        install_plan(Some(t), command, marker, kept) matches Ok(plan) && match rate_limit_hook::installed(
            root,
            command,
            marker,
        ) {
            Ok(new) => if json::printed(new) == t {
                plan.settings == Ok::<SettingsView, Seq<char>>(SettingsView::Keep)
            } else {
                plan.settings == Ok::<SettingsView, Seq<char>>(
                    SettingsView::Write(json::printed(new)),
                )
            },
            Err(e) => plan.settings == Err::<SettingsView, Seq<char>>(e),
        },
{
}

/// Where nothing was kept of the settings, they are written without the switcher's entries, unless
/// that is what they are already.
pub proof fn law_settings_are_written_without_the_hooks(
    t: Seq<char>,
    root: JsonView,
    marker: Seq<char>,
    kept: Kept,
)
    requires
        json::parsed(t) == Some(root),
        kept.backup is None,
        !kept.absent_mark,
    ensures
        ({
            let left = json::printed(rate_limit_hook::cleaned(root, marker));
            uninstall_plan(Some(t), marker, kept) == if left == t {
                SettingsView::Keep
            } else {
                SettingsView::Write(left)
            }
        }),
{
}

/// Settings are removed only where the switcher made them and nothing but its entries is in them.
pub proof fn law_only_own_settings_are_removed(
    t: Seq<char>,
    root: JsonView,
    marker: Seq<char>,
    kept: Kept,
)
    requires
        json::parsed(t) == Some(root),
    ensures
        uninstall_plan(Some(t), marker, kept) == SettingsView::Remove <==> kept.backup is None
            && kept.absent_mark && json::same_json(
            rate_limit_hook::cleaned(root, marker),
            JsonView::Object(Map::empty()),
        ),
{
}

/// The hooks are shown as in force where the script is there and the settings of some target hold
/// them; with them the paths, and each target in its place with its name, its settings' path, and
/// whether these are there and hold the hooks.
pub proof fn law_status_is_shown_as_it_is(
    layout: HookLayout,
    script_exists: bool,
    states: Seq<TargetStatus>,
)
    requires
        states.len() == layout.targets@.len(),
    ensures
        ({
            let shown = status_json(layout, script_exists, states);
            let any = exists|i: int| 0 <= i < states.len() && (#[trigger] states[i]).installed;
            &&& json::field(shown, "scriptPath"@) == Some(JsonView::Text(layout.script.text@))
            &&& json::field(shown, "scriptExists"@) == Some(JsonView::Bool(script_exists))
            &&& json::field(shown, "eventsPath"@) == Some(JsonView::Text(layout.events.text@))
            &&& json::field(shown, "installed"@) == Some(JsonView::Bool(script_exists && any))
            &&& json::field(shown, "targets"@) matches Some(JsonView::Array(list)) && list.len()
                == states.len() && forall|i: int|
                0 <= i < list.len() ==> {
                    &&& json::field(#[trigger] list[i], "label"@) == Some(
                        JsonView::Text(layout.targets@[i].label@),
                    )
                    &&& json::field(list[i], "path"@) == Some(
                        JsonView::Text(layout.targets@[i].settings.text@),
                    )
                    &&& json::field(list[i], "exists"@) == Some(JsonView::Bool(states[i].exists))
                    &&& json::field(list[i], "installed"@) == Some(
                        JsonView::Bool(states[i].installed),
                    )
                }
        }),
{
    lemma_status_keys();
    let shown = status_json(layout, script_exists, states);
    let list = targets_json(layout.targets@, states);
    assert(json::field(shown, "targets"@) == Some(JsonView::Array(list)));
    assert forall|i: int| 0 <= i < list.len() implies {
        &&& json::field(#[trigger] list[i], "label"@) == Some(
            JsonView::Text(layout.targets@[i].label@),
        )
        &&& json::field(list[i], "path"@) == Some(
            JsonView::Text(layout.targets@[i].settings.text@),
        )
        &&& json::field(list[i], "exists"@) == Some(JsonView::Bool(states[i].exists))
        &&& json::field(list[i], "installed"@) == Some(JsonView::Bool(states[i].installed))
    } by {
        assert(list[i] == target_json(
            layout.targets@[i].label@,
            layout.targets@[i].settings.text@,
            states[i],
        ));
    }
}

/// Each complaint is told after the path of the settings that it is about.
pub proof fn law_each_complaint_is_told(errors: Seq<(String, String)>, i: int)
    requires
        0 <= i < errors.len(),
    ensures
        complaints(errors).len() == errors.len(),
        complaints(errors)[i] == errors[i].0@ + "："@ + errors[i].1@,
{
}

/// The names of what is shown of the hooks differ from each other.
proof fn lemma_status_keys()
    ensures
        "scriptPath"@ != "scriptExists"@,
        "scriptPath"@ != "eventsPath"@,
        "scriptPath"@ != "installed"@,
        "scriptPath"@ != "targets"@,
        "scriptExists"@ != "eventsPath"@,
        "scriptExists"@ != "installed"@,
        "scriptExists"@ != "targets"@,
        "eventsPath"@ != "installed"@,
        "eventsPath"@ != "targets"@,
        "installed"@ != "targets"@,
        "label"@ != "path"@,
        "label"@ != "exists"@,
        "label"@ != "installed"@,
        "path"@ != "exists"@,
        "path"@ != "installed"@,
        "exists"@ != "installed"@,
{
    reveal_strlit("scriptPath");
    reveal_strlit("scriptExists");
    reveal_strlit("eventsPath");
    reveal_strlit("installed");
    reveal_strlit("targets");
    reveal_strlit("label");
    reveal_strlit("path");
    reveal_strlit("exists");
    assert("scriptPath"@.len() == 10);
    assert("scriptExists"@.len() == 12);
    assert("eventsPath"@.len() == 10);
    assert("installed"@.len() == 9);
    assert("targets"@.len() == 7);
    assert("label"@.len() == 5);
    assert("path"@.len() == 4);
    assert("exists"@.len() == 6);
    assert("scriptPath"@[0] != "eventsPath"@[0]);
}

} // verus!
