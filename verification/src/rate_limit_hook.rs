//! The hooks that report refusals: how they are put into the clients' settings, taken out again,
//! and what is kept to restore the settings as they were.

use vstd::prelude::*;

use crate::json;
use crate::json::Json;
use crate::json::JsonView;
use crate::path::FilePath;
use crate::path::PathStyle;
use crate::path::PathView;
use crate::text;

verus! {

/// The name of the file that the hooks write to.
pub const EVENTS_FILE_NAME: &'static str = "hook-events.jsonl";

/// The name of the directory for what the settings were before.
pub const BACKUP_DIR_NAME: &'static str = "hook-backups";

/// The name of the switcher's directory in the home directory.
pub const STORE_DIR_NAME: &'static str = ".wb-switch";

/// The two events that the hooks are registered for.
pub const STOP_EVENT: &'static str = "Stop";

pub const FINAL_STOP_EVENT: &'static str = "FinalStop";

// ---------------------------------------------------------------------------
// The script
// ---------------------------------------------------------------------------

/// The language of the hook's script.
#[derive(Clone, Copy, PartialEq, Eq, Structural, Debug)]
pub enum ScriptKind {
    Sh,
    Cmd,
}

/// The language of scripts on a system that writes paths in the given style.
pub fn script_kind(style: PathStyle) -> (r: ScriptKind)
    ensures
        r == kind_for(style),
{
    match style {
        PathStyle::Unix => ScriptKind::Sh,
        PathStyle::Windows => ScriptKind::Cmd,
    }
}

pub open spec fn kind_for(style: PathStyle) -> ScriptKind {
    match style {
        PathStyle::Unix => ScriptKind::Sh,
        PathStyle::Windows => ScriptKind::Cmd,
    }
}

pub open spec fn name_of_script(kind: ScriptKind) -> Seq<char> {
    match kind {
        ScriptKind::Sh => "hook.sh"@,
        ScriptKind::Cmd => "hook.cmd"@,
    }
}

/// The name of the script's file.
pub fn script_name(kind: ScriptKind) -> (r: &'static str)
    ensures
        r@ == name_of_script(kind),
{
    match kind {
        ScriptKind::Sh => "hook.sh",
        ScriptKind::Cmd => "hook.cmd",
    }
}

pub open spec fn body_of_script(kind: ScriptKind) -> Seq<char> {
    match kind {
        ScriptKind::Sh => "#!/bin/sh\npayload=$(cat)\nprintf '%s\\n' \"$payload\" >> \"$HOME/.wb-switch/hook-events.jsonl\"\nprintf '{}'\n"@,
        ScriptKind::Cmd => "@echo off\r\npowershell -NoProfile -ExecutionPolicy Bypass -Command \"$d=[Console]::In.ReadToEnd(); if ($d.Trim().Length -gt 0) { Add-Content -LiteralPath (Join-Path $env:USERPROFILE '.wb-switch\\hook-events.jsonl') -Value $d.TrimEnd() -Encoding UTF8 }\"\r\necho {}\r\n"@,
    }
}

/// The script: it appends what it reads to the file of events, and answers with an empty object,
/// since a client takes an empty answer for a failure.
pub fn script_body(kind: ScriptKind) -> (r: &'static str)
    ensures
        r@ == body_of_script(kind),
{
    match kind {
        ScriptKind::Sh => "#!/bin/sh\npayload=$(cat)\nprintf '%s\\n' \"$payload\" >> \"$HOME/.wb-switch/hook-events.jsonl\"\nprintf '{}'\n",
        ScriptKind::Cmd => "@echo off\r\npowershell -NoProfile -ExecutionPolicy Bypass -Command \"$d=[Console]::In.ReadToEnd(); if ($d.Trim().Length -gt 0) { Add-Content -LiteralPath (Join-Path $env:USERPROFILE '.wb-switch\\hook-events.jsonl') -Value $d.TrimEnd() -Encoding UTF8 }\"\r\necho {}\r\n",
    }
}

/// Whether the script's file holds the script as it was generated.
pub fn script_is_ours(existing: &Option<String>, kind: ScriptKind) -> (r: bool)
    ensures
        r == (text::opt_text(*existing) == Some(body_of_script(kind))),
{
    match existing {
        Some(t) => text::same_text(t.as_str(), script_body(kind)),
        None => false,
    }
}

/// The argument in single quotes, as a shell reads it.
pub open spec fn quoted(value: Seq<char>) -> Seq<char> {
    "'"@ + text::replaced(value, "'"@, "'\\''"@) + "'"@
}

/// Puts an argument for a shell in single quotes.
pub fn shell_quote(value: &str) -> (r: String)
    ensures
        r@ == quoted(value@),
{
    let inner = text::replace_text(value, "'", "'\\''");
    text::concat3("'", inner.as_str(), "'")
}

pub open spec fn command_for(script: Seq<char>, kind: ScriptKind) -> Seq<char> {
    match kind {
        ScriptKind::Sh => "sh "@ + quoted(script),
        ScriptKind::Cmd => "cmd /c \""@ + script + "\""@,
    }
}

/// The command that runs the script.
pub fn hook_command(script: &str, kind: ScriptKind) -> (r: String)
    ensures
        r@ == command_for(script@, kind),
{
    match kind {
        ScriptKind::Sh => text::concat("sh ", shell_quote(script).as_str()),
        ScriptKind::Cmd => text::concat3("cmd /c \"", script, "\""),
    }
}

// ---------------------------------------------------------------------------
// Paths
// ---------------------------------------------------------------------------

/// The settings of one client.
pub struct HookTarget {
    pub label: &'static str,
    pub settings: FilePath,
}

/// All paths that matter to the hooks.
pub struct HookLayout {
    pub script: FilePath,
    pub events: FilePath,
    pub backups: FilePath,
    pub targets: Vec<HookTarget>,
}

/// The path of the file of events, given the home directory.
pub open spec fn events_file(home: PathView) -> PathView {
    home.join(STORE_DIR_NAME@).join(EVENTS_FILE_NAME@)
}

/// The target is of the label, with the settings in the directory of the given name.
pub open spec fn is_target(
    target: HookTarget,
    home: PathView,
    dir: Seq<char>,
    label: Seq<char>,
) -> bool {
    target.label@ == label && target.settings@ == home.join(dir).join("settings.json"@)
}

impl HookLayout {
    /// The paths, given the home directory.
    pub fn under(base: &FilePath) -> (r: HookLayout)
        ensures
            r.script@ == base@.join(STORE_DIR_NAME@).join(name_of_script(kind_for(base.style))),
            r.events@ == events_file(base@),
            r.backups@ == base@.join(STORE_DIR_NAME@).join(BACKUP_DIR_NAME@),
            r.targets@.len() == 3,
            is_target(r.targets@[0], base@, ".codebuddy"@, "codebuddy"@),
            is_target(r.targets@[1], base@, ".workbuddy"@, "workbuddy"@),
            is_target(r.targets@[2], base@, ".workbuddy-ai"@, "workbuddy-ai"@),
    {
        let store = base.join(STORE_DIR_NAME);
        let mut targets: Vec<HookTarget> = Vec::new();
        targets.push(
            HookTarget {
                label: "codebuddy",
                settings: base.join(".codebuddy").join("settings.json"),
            },
        );
        targets.push(
            HookTarget {
                label: "workbuddy",
                settings: base.join(".workbuddy").join("settings.json"),
            },
        );
        targets.push(
            HookTarget {
                label: "workbuddy-ai",
                settings: base.join(".workbuddy-ai").join("settings.json"),
            },
        );
        HookLayout {
            script: store.join(script_name(script_kind(base.style))),
            events: store.join(EVENTS_FILE_NAME),
            backups: store.join(BACKUP_DIR_NAME),
            targets,
        }
    }

    /// Where the settings of a target are kept as they were.
    pub fn backup_path(&self, target: &HookTarget) -> (r: FilePath)
        ensures
            r@ == self.backups@.join(target.label@ + ".settings.json"@),
    {
        self.backups.join(text::concat(target.label, ".settings.json").as_str())
    }

    /// The mark that a target had no settings.
    pub fn absent_mark_path(&self, target: &HookTarget) -> (r: FilePath)
        ensures
            r@ == self.backups@.join(target.label@ + ".settings.json.absent"@),
    {
        self.backups.join(text::concat(target.label, ".settings.json.absent").as_str())
    }
}

/// The path of the file of events, given the home directory.
pub fn events_path(home: &FilePath) -> (r: FilePath)
    ensures
        r@ == events_file(home@),
{
    HookLayout::under(home).events
}

// ---------------------------------------------------------------------------
// Entries of hooks
// ---------------------------------------------------------------------------

/// The command holds the marker, the path of the script, as it is or in quotes for a shell.
pub open spec fn holds_marker(command: Seq<char>, marker: Seq<char>) -> bool {
    text::includes(command, marker) || text::includes(command, quoted(marker))
}

/// The hook runs a command that holds the marker.
pub open spec fn runs_marker(hook: JsonView, marker: Seq<char>) -> bool {
    &&& json::text_in(json::field(hook, "type"@)) == Some("command"@)
    &&& match json::text_in(json::field(hook, "command"@)) {
        Some(command) => holds_marker(command, marker),
        None => false,
    }
}

/// The entry was put in by the switcher: one of its hooks runs a command with the marker.
pub open spec fn is_ours(entry: JsonView, marker: Seq<char>) -> bool {
    match json::array_of(json::field(entry, "hooks"@)) {
        Some(hooks) => exists|i: int|
            0 <= i < hooks.len() && runs_marker(#[trigger] hooks[i], marker),
        None => false,
    }
}

/// Some entry for the event was put in by the switcher.
pub open spec fn event_is_marked(hooks: JsonView, event: Seq<char>, marker: Seq<char>) -> bool {
    match json::array_of(json::field(hooks, event)) {
        Some(list) => exists|i: int| 0 <= i < list.len() && is_ours(#[trigger] list[i], marker),
        None => false,
    }
}

/// The settings hold an entry of the switcher.
pub open spec fn is_marked(root: JsonView, marker: Seq<char>) -> bool {
    match json::field(root, "hooks"@) {
        Some(hooks) => event_is_marked(hooks, STOP_EVENT@, marker) || event_is_marked(
            hooks,
            FINAL_STOP_EVENT@,
            marker,
        ),
        None => false,
    }
}

fn hook_runs_marker(hook: &Json, marker: &str) -> (r: bool)
    ensures
        r == runs_marker(hook@, marker@),
{
    let is_command = match hook.get_text("type") {
        Some(t) => text::same_text(t.as_str(), "command"),
        None => false,
    };
    is_command && match hook.get_text("command") {
        Some(command) => text::has_text(command.as_str(), marker) || text::has_text(
            command.as_str(),
            shell_quote(marker).as_str(),
        ),
        None => false,
    }
}

/// Whether the entry was put in by the switcher.
pub fn entry_is_ours(entry: &Json, marker: &str) -> (r: bool)
    ensures
        r == is_ours(entry@, marker@),
{
    match entry.get_array("hooks") {
        Some(hooks) => {
            let ghost views = json::item_views(hooks@);
            proof {
                json::lemma_item_views(hooks@);
            }
            let mut i: usize = 0;
            while i < hooks.len()
                invariant
                    i <= hooks@.len(),
                    views.len() == hooks@.len(),
                    forall|j: int| 0 <= j < hooks@.len() ==> #[trigger] views[j] == hooks@[j]@,
                    json::array_of(json::field(entry@, "hooks"@)) == Some(views),
                    forall|j: int| 0 <= j < i ==> !runs_marker(#[trigger] views[j], marker@),
                decreases hooks@.len() - i,
            {
                assert(views[i as int] == hooks@[i as int]@);
                if hook_runs_marker(&hooks[i], marker) {
                    proof {
                        let all = json::array_of(json::field(entry@, "hooks"@))->0;
                        assert(runs_marker(all[i as int], marker@));
                    }
                    return true;
                }
                i += 1;
            }
            false
        },
        None => false,
    }
}

fn event_marked(hooks: &Json, event: &str, marker: &str) -> (r: bool)
    ensures
        r == event_is_marked(hooks@, event@, marker@),
{
    match hooks.get_array(event) {
        Some(list) => {
            let ghost views = json::item_views(list@);
            proof {
                json::lemma_item_views(list@);
            }
            let mut i: usize = 0;
            while i < list.len()
                invariant
                    i <= list@.len(),
                    views.len() == list@.len(),
                    forall|j: int| 0 <= j < list@.len() ==> #[trigger] views[j] == list@[j]@,
                    json::array_of(json::field(hooks@, event@)) == Some(views),
                    forall|j: int| 0 <= j < i ==> !is_ours(#[trigger] views[j], marker@),
                decreases list@.len() - i,
            {
                assert(views[i as int] == list@[i as int]@);
                if entry_is_ours(&list[i], marker) {
                    proof {
                        let all = json::array_of(json::field(hooks@, event@))->0;
                        assert(is_ours(all[i as int], marker@));
                    }
                    return true;
                }
                i += 1;
            }
            false
        },
        None => false,
    }
}

/// Whether the settings hold an entry of the switcher.
pub fn config_has_marker(root: &Json, marker: &str) -> (r: bool)
    ensures
        r == is_marked(root@, marker@),
{
    match root.get("hooks") {
        Some(hooks) => event_marked(hooks, STOP_EVENT, marker) || event_marked(
            hooks,
            FINAL_STOP_EVENT,
            marker,
        ),
        None => false,
    }
}

/// The entries that were not put in by the switcher.
pub open spec fn others(list: Seq<JsonView>, marker: Seq<char>) -> Seq<JsonView>
    decreases list.len(),
{
    if list.len() == 0 {
        seq![]
    } else if is_ours(list.last(), marker) {
        others(list.drop_last(), marker)
    } else {
        others(list.drop_last(), marker).push(list.last())
    }
}

fn other_entries(list: &Vec<Json>, marker: &str) -> (r: Vec<Json>)
    ensures
        json::item_views(r@) == others(json::item_views(list@), marker@),
{
    let ghost views = json::item_views(list@);
    proof {
        json::lemma_item_views(list@);
    }
    let mut out: Vec<Json> = Vec::new();
    let mut i: usize = 0;
    while i < list.len()
        invariant
            i <= list@.len(),
            views.len() == list@.len(),
            forall|j: int| 0 <= j < list@.len() ==> #[trigger] views[j] == list@[j]@,
            json::item_views(out@) == others(views.take(i as int), marker@),
        decreases list@.len() - i,
    {
        let ghost before = out@;
        assert(views.take(i + 1).drop_last() =~= views.take(i as int));
        assert(views.take(i + 1).last() == views[i as int]);
        if !entry_is_ours(&list[i], marker) {
            out.push(list[i].copy());
            assert(out@.drop_last() =~= before);
        }
        i += 1;
    }
    assert(views.take(list@.len() as int) =~= views);
    out
}

/// The entry that runs the command.
pub open spec fn our_entry(command: Seq<char>) -> JsonView {
    JsonView::Object(
        map![
            "matcher"@ => JsonView::Text(""@),
            "hooks"@ => JsonView::Array(
                seq![
                    JsonView::Object(
                        map![
                            "type"@ => JsonView::Text("command"@),
                            "command"@ => JsonView::Text(command)
                        ],
                    ),
                ],
            )
        ],
    )
}

fn entry_value(command: &str) -> (r: Json)
    ensures
        r@ == our_entry(command@),
{
    let hook = json::with_field(Vec::new(), "type", json::text_value("command"));
    let hook = Json::Object(json::with_field(hook, "command", json::text_value(command)));
    let mut hooks: Vec<Json> = Vec::new();
    hooks.push(hook);
    proof {
        json::lemma_item_views(hooks@);
    }
    assert(json::item_views(hooks@) =~= seq![hook@]);
    let entry = json::with_field(Vec::new(), "matcher", json::text_value(""));
    Json::Object(json::with_field(entry, "hooks", Json::Array(hooks)))
}

/// The settings with the switcher's entry for the event in place of those that were there; the
/// complaint where the settings are not shaped so that it can be put in.
pub open spec fn upserted(
    root: JsonView,
    event: Seq<char>,
    command: Seq<char>,
    marker: Seq<char>,
) -> Result<JsonView, Seq<char>> {
    match root {
        JsonView::Object(o) => {
            let hooks = if o.contains_key("hooks"@) {
                o["hooks"@]
            } else {
                JsonView::Object(Map::empty())
            };
            match hooks {
                JsonView::Object(h) => {
                    let list = if h.contains_key(event) {
                        h[event]
                    } else {
                        JsonView::Array(seq![])
                    };
                    match list {
                        JsonView::Array(l) => Ok(
                            JsonView::Object(
                                o.insert(
                                    "hooks"@,
                                    JsonView::Object(
                                        h.insert(
                                            event,
                                            JsonView::Array(
                                                others(l, marker).push(our_entry(command)),
                                            ),
                                        ),
                                    ),
                                ),
                            ),
                        ),
                        _ => Err("`hooks."@ + event + "` 不是数组"@),
                    }
                },
                _ => Err("`hooks` 不是 JSON 对象"@),
            }
        },
        _ => Err("配置根节点不是 JSON 对象"@),
    }
}

pub open spec fn result_view(r: Result<Json, String>) -> Result<JsonView, Seq<char>> {
    match r {
        Ok(v) => Ok(v@),
        Err(e) => Err(e@),
    }
}

/// Puts the switcher's entry for the event into the settings, in place of those that were there.
pub fn upsert_event(root: &Json, event: &str, command: &str, marker: &str) -> (r: Result<
    Json,
    String,
>)
    ensures
        result_view(r) == upserted(root@, event@, command@, marker@),
{
    let fields = match root {
        Json::Object(fields) => json::copy_fields(fields),
        _ => {
            return Err("配置根节点不是 JSON 对象".to_owned());
        },
    };
    let hooks: Vec<(String, Json)> = match root.get("hooks") {
        Some(Json::Object(h)) => json::copy_fields(h),
        Some(_) => {
            return Err("`hooks` 不是 JSON 对象".to_owned());
        },
        None => Vec::new(),
    };
    let held = Json::Object(hooks);
    let mut entries: Vec<Json> = match held.get(event) {
        Some(Json::Array(list)) => other_entries(list, marker),
        Some(_) => {
            return Err(text::concat3("`hooks.", event, "` 不是数组"));
        },
        None => Vec::new(),
    };
    let ghost kept = entries@;
    proof {
        assert(others(Seq::<JsonView>::empty(), marker@) =~= seq![]);
        assert(json::item_views(kept) == match json::array_of(json::field(held@, event@)) {
            Some(l) => others(l, marker@),
            None => others(seq![], marker@),
        });
    }
    entries.push(entry_value(command));
    assert(entries@.drop_last() =~= kept);
    let hooks = match held {
        Json::Object(h) => json::with_field(h, event, Json::Array(entries)),
        _ => Vec::new(),
    };
    let r: Result<Json, String> = Ok(
        Json::Object(json::with_field(fields, "hooks", Json::Object(hooks))),
    );
    r
}

/// The settings with the switcher's entries for both events.
pub open spec fn installed(root: JsonView, command: Seq<char>, marker: Seq<char>) -> Result<
    JsonView,
    Seq<char>,
> {
    match upserted(root, STOP_EVENT@, command, marker) {
        Ok(first) => upserted(first, FINAL_STOP_EVENT@, command, marker),
        Err(e) => Err(e),
    }
}

/// Puts the switcher's entries for both events into the settings.
pub fn install_entries(root: &Json, command: &str, marker: &str) -> (r: Result<Json, String>)
    ensures
        result_view(r) == installed(root@, command@, marker@),
{
    match upsert_event(root, STOP_EVENT, command, marker) {
        Ok(first) => upsert_event(&first, FINAL_STOP_EVENT, command, marker),
        Err(e) => Err(e),
    }
}

/// The hooks without the switcher's entries for the event, and without the event where none is
/// left.
pub open spec fn event_cleaned(
    hooks: Map<Seq<char>, JsonView>,
    event: Seq<char>,
    marker: Seq<char>,
) -> Map<Seq<char>, JsonView> {
    match json::array_of(json::field(JsonView::Object(hooks), event)) {
        Some(list) => if others(list, marker).len() == 0 {
            hooks.remove(event)
        } else {
            hooks.insert(event, JsonView::Array(others(list, marker)))
        },
        None => hooks,
    }
}

/// The hooks without the switcher's entries.
pub open spec fn hooks_cleaned(hooks: Map<Seq<char>, JsonView>, marker: Seq<char>) -> Map<
    Seq<char>,
    JsonView,
> {
    event_cleaned(event_cleaned(hooks, STOP_EVENT@, marker), FINAL_STOP_EVENT@, marker)
}

/// The settings without the switcher's entries; an event or a list of hooks that is left empty
/// goes too.
pub open spec fn cleaned(root: JsonView, marker: Seq<char>) -> JsonView {
    match root {
        JsonView::Object(o) => match json::field(root, "hooks"@) {
            Some(JsonView::Object(h)) => if hooks_cleaned(h, marker) == Map::<
                Seq<char>,
                JsonView,
            >::empty() {
                JsonView::Object(o.remove("hooks"@))
            } else {
                JsonView::Object(o.insert("hooks"@, JsonView::Object(hooks_cleaned(h, marker))))
            },
            _ => root,
        },
        _ => root,
    }
}

fn clean_event(hooks: Vec<(String, Json)>, event: &str, marker: &str) -> (r: Vec<(String, Json)>)
    ensures
        json::field_views(r@) == event_cleaned(json::field_views(hooks@), event@, marker@),
{
    let held = Json::Object(hooks);
    let left: Option<Vec<Json>> = match held.get_array(event) {
        Some(list) => Some(other_entries(list, marker)),
        None => None,
    };
    match held {
        Json::Object(h) => match left {
            Some(list) => {
                proof {
                    json::lemma_item_views(list@);
                }
                if list.len() == 0 {
                    json::without_field(h, event)
                } else {
                    json::with_field(h, event, Json::Array(list))
                }
            },
            None => h,
        },
        _ => Vec::new(),
    }
}

/// Takes the switcher's entries out of the settings.
pub fn remove_event_entries(root: &Json, marker: &str) -> (r: Json)
    ensures
        r@ == cleaned(root@, marker@),
{
    let fields = match root {
        Json::Object(fields) => json::copy_fields(fields),
        _ => {
            return root.copy();
        },
    };
    let hooks = match root.get("hooks") {
        Some(Json::Object(h)) => json::copy_fields(h),
        _ => {
            return root.copy();
        },
    };
    let hooks = clean_event(hooks, STOP_EVENT, marker);
    let hooks = clean_event(hooks, FINAL_STOP_EVENT, marker);
    proof {
        json::lemma_field_keys(hooks@);
        if hooks@.len() == 0 {
            assert(json::field_views(hooks@) =~= Map::<Seq<char>, JsonView>::empty());
        } else {
            assert(json::field_views(hooks@).contains_key(hooks@[0].0@));
            assert(json::field_views(hooks@) != Map::<Seq<char>, JsonView>::empty());
        }
    }
    if hooks.len() == 0 {
        Json::Object(json::without_field(fields, "hooks"))
    } else {
        Json::Object(json::with_field(fields, "hooks", Json::Object(hooks)))
    }
}

// ---------------------------------------------------------------------------
// Quoting
// ---------------------------------------------------------------------------

/// A character that stands for itself to a shell, outside of quotes.
pub open spec fn is_plain(c: char) -> bool {
    ||| '0' <= c <= '9'
    ||| 'A' <= c <= 'Z'
    ||| 'a' <= c <= 'z'
    ||| c == '/'
    ||| c == '.'
    ||| c == '_'
    ||| c == '-'
}

/// The word that a POSIX shell reads, from within single quotes or from outside of them: within,
/// each character but the quote stands for itself; outside, a backslash makes the next character
/// stand for itself. `None` where the text is not one word that is read by these rules alone.
pub open spec fn shell_word(t: Seq<char>, within: bool) -> Option<Seq<char>>
    decreases t.len(),
{
    if t.len() == 0 {
        if within {
            None
        } else {
            Some(seq![])
        }
    } else if t[0] == '\'' {
        shell_word(t.skip(1), !within)
    } else if within || is_plain(t[0]) {
        after_char(t[0], shell_word(t.skip(1), within))
    } else if t[0] == '\\' && t.len() > 1 && t[1] != '\n' {
        after_char(t[1], shell_word(t.skip(2), false))
    } else {
        None
    }
}

/// The word with a character before it.
pub open spec fn after_char(c: char, word: Option<Seq<char>>) -> Option<Seq<char>> {
    match word {
        Some(w) => Some(seq![c] + w),
        None => None,
    }
}

/// Characters within quotes, none of them a quote, are read as they are.
proof fn lemma_within_quotes(t: Seq<char>, rest: Seq<char>)
    requires
        forall|i: int| 0 <= i < t.len() ==> #[trigger] t[i] != '\'',
    ensures
        shell_word(t + rest, true) == match shell_word(rest, true) {
            Some(w) => Some(t + w),
            None => None,
        },
    decreases t.len(),
{
    if t.len() == 0 {
        assert(t + rest =~= rest);
        match shell_word(rest, true) {
            Some(w) => {
                assert(t + w =~= w);
            },
            None => {},
        }
    } else {
        let tail = t.skip(1);
        assert((t + rest)[0] == t[0]);
        assert((t + rest).skip(1) =~= tail + rest);
        lemma_within_quotes(tail, rest);
        match shell_word(rest, true) {
            Some(w) => {
                assert(seq![t[0]] + (tail + w) =~= t + w);
            },
            None => {},
        }
    }
}

proof fn lemma_replaced_reads_back(v: Seq<char>)
    ensures
        shell_word(text::replaced(v, "'"@, "'\\''"@) + "'"@, true) == Some(v),
    decreases v.len(),
{
    reveal_strlit("'");
    reveal_strlit("'\\''");
    let quote = "'"@;
    let by = "'\\''"@;
    assert(quote =~= seq!['\'']);
    assert(by =~= seq!['\'', '\\', '\'', '\'']);
    text::lemma_find_from(v, quote, 0);
    assert(shell_word(quote, true) == Some(Seq::<char>::empty())) by {
        assert(quote.skip(1) =~= Seq::<char>::empty());
        reveal_with_fuel(shell_word, 2);
    }
    match text::find_from(v, quote, 0) {
        None => {
            assert forall|i: int| 0 <= i < v.len() implies #[trigger] v[i] != '\'' by {
                if v[i] == '\'' {
                    assert(v.subrange(i, i + 1) =~= quote);
                    assert(text::occurs_at(v, quote, i));
                }
            }
            lemma_within_quotes(v, quote);
            assert(v + Seq::<char>::empty() =~= v);
        },
        Some(i) => {
            let head = v.take(i);
            let tail = v.skip(i + 1);
            assert(v.subrange(i, i + 1) =~= quote);
            assert(v[i] == v.subrange(i, i + 1)[0]);
            assert forall|j: int| 0 <= j < head.len() implies #[trigger] head[j] != '\'' by {
                if head[j] == '\'' {
                    assert(v.subrange(j, j + 1) =~= quote);
                    assert(text::occurs_at(v, quote, j));
                }
            }
            lemma_replaced_reads_back(tail);
            let rest = text::replaced(tail, quote, by) + quote;
            let t = by + rest;
            assert(head + by + text::replaced(tail, quote, by) + quote =~= head + t);
            assert(t.skip(1) =~= seq!['\\', '\'', '\''] + rest);
            assert(t.skip(1).skip(2) =~= seq!['\''] + rest);
            assert(t.skip(1).skip(2).skip(1) =~= rest);
            assert(shell_word(t, true) == Some(seq!['\''] + tail)) by {
                reveal_with_fuel(shell_word, 4);
            }
            lemma_within_quotes(head, t);
            assert(head + (seq!['\''] + tail) =~= v);
        },
    }
}

/// What is put in quotes is one word to a shell, and that word is what was put in quotes.
pub proof fn law_quoted_reads_back(v: Seq<char>)
    ensures
        shell_word(quoted(v), false) == Some(v),
        quoted(v)[0] == '\'',
        quoted(v).last() == '\'',
{
    reveal_strlit("'");
    let inner = text::replaced(v, "'"@, "'\\''"@) + "'"@;
    lemma_replaced_reads_back(v);
    assert(quoted(v) =~= "'"@ + inner);
    assert(quoted(v).skip(1) =~= inner);
}

/// Two texts that are the same in quotes are the same.
pub proof fn law_quoting_keeps_apart(a: Seq<char>, b: Seq<char>)
    requires
        quoted(a) == quoted(b),
    ensures
        a == b,
{
    law_quoted_reads_back(a);
    law_quoted_reads_back(b);
}

/// An entry is the switcher's where one of its hooks is a command that holds the script's path,
/// as it is or in quotes; and nowhere else.
pub proof fn law_entry_is_known_by_its_command(
    entry: Map<Seq<char>, JsonView>,
    hooks: Seq<JsonView>,
    marker: Seq<char>,
)
    requires
        entry.contains_pair("hooks"@, JsonView::Array(hooks)),
    ensures
        is_ours(JsonView::Object(entry), marker) <==> exists|i: int|
            0 <= i < hooks.len() && json::field(#[trigger] hooks[i], "type"@) == Some(
                JsonView::Text("command"@),
            ) && (json::field(hooks[i], "command"@) matches Some(JsonView::Text(command)) && (
            text::includes(command, marker) || text::includes(command, quoted(marker)))),
{
    assert(json::array_of(json::field(JsonView::Object(entry), "hooks"@)) == Some(hooks));
    if is_ours(JsonView::Object(entry), marker) {
        let i = choose|i: int| 0 <= i < hooks.len() && runs_marker(#[trigger] hooks[i], marker);
        assert(json::field(hooks[i], "type"@) == Some(JsonView::Text("command"@)));
    }
    if exists|i: int|
        0 <= i < hooks.len() && json::field(#[trigger] hooks[i], "type"@) == Some(
            JsonView::Text("command"@),
        ) && (json::field(hooks[i], "command"@) matches Some(JsonView::Text(command)) && (
        text::includes(command, marker) || text::includes(command, quoted(marker)))) {
        let i = choose|i: int|
            0 <= i < hooks.len() && json::field(#[trigger] hooks[i], "type"@) == Some(
                JsonView::Text("command"@),
            ) && (json::field(hooks[i], "command"@) matches Some(JsonView::Text(command)) && (
            text::includes(command, marker) || text::includes(command, quoted(marker))));
        assert(runs_marker(hooks[i], marker));
    }
}

/// What has no list of hooks is not the switcher's.
pub proof fn law_entry_without_hooks_is_not_ours(entry: JsonView, marker: Seq<char>)
    requires
        !(json::field(entry, "hooks"@) matches Some(JsonView::Array(_))),
    ensures
        !is_ours(entry, marker),
{
}

/// Settings hold the switcher's hooks where an entry for either of the two events is its own.
pub proof fn law_settings_are_known_by_either_event(
    root: Map<Seq<char>, JsonView>,
    hooks: Map<Seq<char>, JsonView>,
    list: Seq<JsonView>,
    marker: Seq<char>,
    i: int,
)
    ensures
        root.contains_pair("hooks"@, JsonView::Object(hooks)) && (hooks.contains_pair(
            "Stop"@,
            JsonView::Array(list),
        ) || hooks.contains_pair("FinalStop"@, JsonView::Array(list))) && 0 <= i < list.len()
            && is_ours(list[i], marker) ==> is_marked(JsonView::Object(root), marker),
        !root.contains_key("hooks"@) ==> !is_marked(JsonView::Object(root), marker),
        root.contains_pair("hooks"@, JsonView::Object(hooks)) && !hooks.contains_key("Stop"@)
            && !hooks.contains_key("FinalStop"@) ==> !is_marked(JsonView::Object(root), marker),
        root.contains_pair("hooks"@, JsonView::Object(hooks)) && !hooks.contains_key("FinalStop"@)
            && hooks.contains_pair("Stop"@, JsonView::Array(list)) && (forall|j: int|
            0 <= j < list.len() ==> !is_ours(#[trigger] list[j], marker)) ==> !is_marked(
            JsonView::Object(root),
            marker,
        ),
        root.contains_pair("hooks"@, JsonView::Object(hooks)) && !hooks.contains_key("Stop"@)
            && hooks.contains_pair("FinalStop"@, JsonView::Array(list)) && (forall|j: int|
            0 <= j < list.len() ==> !is_ours(#[trigger] list[j], marker)) ==> !is_marked(
            JsonView::Object(root),
            marker,
        ),
{
    if root.contains_pair("hooks"@, JsonView::Object(hooks)) {
        let h = JsonView::Object(hooks);
        if 0 <= i < list.len() && is_ours(list[i], marker) {
            if hooks.contains_pair("Stop"@, JsonView::Array(list)) {
                assert(json::array_of(json::field(h, "Stop"@)) == Some(list));
                assert(is_ours(json::array_of(json::field(h, "Stop"@))->0[i], marker));
                assert(event_is_marked(h, "Stop"@, marker));
            }
            if hooks.contains_pair("FinalStop"@, JsonView::Array(list)) {
                assert(json::array_of(json::field(h, "FinalStop"@)) == Some(list));
                assert(is_ours(json::array_of(json::field(h, "FinalStop"@))->0[i], marker));
                assert(event_is_marked(h, "FinalStop"@, marker));
            }
        }
    }
}

/// The entries of others are kept, each as it is and in its place; the switcher's own are not.
pub proof fn law_entries_of_others_are_kept(
    a: Seq<JsonView>,
    b: Seq<JsonView>,
    entry: JsonView,
    marker: Seq<char>,
)
    ensures
        others(a + b, marker) == others(a, marker) + others(b, marker),
        others(seq![entry], marker) == if is_ours(entry, marker) {
            seq![]
        } else {
            seq![entry]
        },
    decreases b.len(),
{
    assert(seq![entry].drop_last() =~= Seq::<JsonView>::empty());
    reveal_with_fuel(others, 2);
    assert(Seq::<JsonView>::empty().push(entry) =~= seq![entry]);
    if b.len() == 0 {
        assert(a + b =~= a);
        assert(others(a, marker) + others(b, marker) =~= others(a, marker));
    } else {
        assert((a + b).drop_last() =~= a + b.drop_last());
        law_entries_of_others_are_kept(a, b.drop_last(), entry, marker);
        if !is_ours(b.last(), marker) {
            assert(others(a, marker) + others(b, marker) =~= (others(a, marker) + others(
                b.drop_last(),
                marker,
            )).push(b.last()));
        }
    }
}

/// The switcher's entry is for every tool and runs its command, and nothing else.
pub proof fn law_own_entry_runs_the_command(command: Seq<char>)
    ensures
        json::field(our_entry(command), "matcher"@) == Some(JsonView::Text(""@)),
        json::field(our_entry(command), "hooks"@) matches Some(JsonView::Array(hooks)) && hooks.len()
            == 1 && json::field(hooks[0], "type"@) == Some(JsonView::Text("command"@))
            && json::field(hooks[0], "command"@) == Some(JsonView::Text(command)),
{
    lemma_entry_keys();
}

/// The script is run by a shell that reads its path as one word; or, on Windows, by the command
/// interpreter, with the path in double quotes.
pub proof fn law_command_runs_the_script(script: Seq<char>)
    ensures
        command_for(script, ScriptKind::Sh).take(3) == "sh "@,
        shell_word(command_for(script, ScriptKind::Sh).skip(3), false) == Some(script),
        command_for(script, ScriptKind::Cmd) == "cmd /c \""@ + script + "\""@,
{
    reveal_strlit("sh ");
    assert("sh "@.len() == 3);
    assert(command_for(script, ScriptKind::Sh).take(3) =~= "sh "@);
    assert(command_for(script, ScriptKind::Sh).skip(3) =~= quoted(script));
    law_quoted_reads_back(script);
}

/// An entry can be put in where the settings are an object, their hooks are an object or missing,
/// and the event's entries are a list or missing; else the first that is not so is told.
pub proof fn law_entry_is_put_in_where_it_fits(
    root: JsonView,
    event: Seq<char>,
    command: Seq<char>,
    marker: Seq<char>,
)
    ensures
        ({
            let new = upserted(root, event, command, marker);
            let hooks = json::field(root, "hooks"@);
            let list = match hooks {
                Some(h) => json::field(h, event),
                None => None,
            };
            &&& !(root is Object) ==> new == Err::<JsonView, Seq<char>>(
                "配置根节点不是 JSON 对象"@,
            )
            &&& root is Object && hooks is Some && !(hooks->0 is Object) ==> new == Err::<
                JsonView,
                Seq<char>,
            >("`hooks` 不是 JSON 对象"@)
            &&& root is Object && hooks is Some && hooks->0 is Object && list is Some && !(list->0
                is Array) ==> new == Err::<JsonView, Seq<char>>("`hooks."@ + event + "` 不是数组"@)
            &&& root is Object && (hooks is None || hooks->0 is Object) && (list is None || list->0
                is Array) ==> new is Ok
        }),
{
}

/// Putting an entry in leaves every other key and every other event as it was, and puts the entry
/// behind those of others.
pub proof fn law_entry_is_put_behind_the_others(
    root: Map<Seq<char>, JsonView>,
    hooks: Map<Seq<char>, JsonView>,
    list: Seq<JsonView>,
    event: Seq<char>,
    command: Seq<char>,
    marker: Seq<char>,
    key: Seq<char>,
)
    requires
        root.contains_pair("hooks"@, JsonView::Object(hooks)),
        hooks.contains_pair(event, JsonView::Array(list)),
    ensures
        upserted(JsonView::Object(root), event, command, marker) matches Ok(new) && json::field(
            new,
            "hooks"@,
        ) matches Some(JsonView::Object(h)) && {
            &&& key != "hooks"@ ==> json::field(new, key) == json::field(
                JsonView::Object(root),
                key,
            )
            &&& key != event ==> json::field(JsonView::Object(h), key) == json::field(
                JsonView::Object(hooks),
                key,
            )
            &&& json::field(JsonView::Object(h), event) == Some(
                JsonView::Array(others(list, marker).push(our_entry(command))),
            )
        },
{
}

/// The hooks are put in for both events: the entry is put in for one and then for the other.
pub proof fn law_hooks_are_put_in_for_both_events(
    root: JsonView,
    command: Seq<char>,
    marker: Seq<char>,
)
    ensures
        match upserted(root, "Stop"@, command, marker) {
            Ok(first) => installed(root, command, marker) == upserted(
                first,
                "FinalStop"@,
                command,
                marker,
            ),
            Err(e) => installed(root, command, marker) == Err::<JsonView, Seq<char>>(e),
        },
{
}

/// Each system has the script of its own kind.
pub proof fn law_script_is_of_the_system(style: PathStyle)
    ensures
        name_of_script(kind_for(style)) == match style {
            PathStyle::Unix => "hook.sh"@,
            PathStyle::Windows => "hook.cmd"@,
        },
{
}

/// The names of an entry's fields differ from each other.
proof fn lemma_entry_keys()
    ensures
        "matcher"@ != "hooks"@,
        "type"@ != "command"@,
{
    reveal_strlit("matcher");
    reveal_strlit("hooks");
    reveal_strlit("type");
    reveal_strlit("command");
    assert("matcher"@.len() == 7);
    assert("hooks"@.len() == 5);
    assert("type"@.len() == 4);
    assert("command"@.len() == 7);

}

/// The hooks write to one file in the switcher's directory, and each client's settings are those in
/// its own directory.
pub proof fn law_files_are_where_they_are_looked_for(
    home: PathView,
    target: HookTarget,
    dir: Seq<char>,
    label: Seq<char>,
)
    ensures
        events_file(home) == home.join(".wb-switch"@).join("hook-events.jsonl"@),
        is_target(target, home, dir, label) ==> target.label@ == label && target.settings@
            == home.join(dir).join("settings.json"@),
{
}

/// The script of either kind adds what it is given to the file of events, and answers with an
/// empty object.
pub proof fn law_script_adds_to_the_events(kind: ScriptKind)
    ensures
        ({
            let body = body_of_script(kind);
            match kind {
                ScriptKind::Sh => text::includes(
                    body,
                    "\"$payload\" >> \"$HOME/.wb-switch/hook-events.jsonl\"\n"@,
                ) && body.skip(body.len() - 12) == "printf '{}'\n"@,
                ScriptKind::Cmd => text::includes(
                    body,
                    "Add-Content -LiteralPath (Join-Path $env:USERPROFILE '.wb-switch\\hook-events.jsonl') -Value $d"@,
                ) && body.skip(body.len() - 9) == "echo {}\r\n"@,
            }
        }),
{
    let body = body_of_script(kind);
    match kind {
        ScriptKind::Sh => {
            reveal_strlit("#!/bin/sh\npayload=$(cat)\nprintf '%s\\n' \"$payload\" >> \"$HOME/.wb-switch/hook-events.jsonl\"\nprintf '{}'\n");
            reveal_strlit("\"$payload\" >> \"$HOME/.wb-switch/hook-events.jsonl\"\n");
            reveal_strlit("printf '{}'\n");
            let part = "\"$payload\" >> \"$HOME/.wb-switch/hook-events.jsonl\"\n"@;
            assert(body.subrange(39, (39 + part.len()) as int) =~= part);
            assert(text::occurs_at(body, part, 39));
            assert(body.skip(body.len() - 12) =~= "printf '{}'\n"@);
        },
        ScriptKind::Cmd => {
            reveal_strlit("@echo off\r\npowershell -NoProfile -ExecutionPolicy Bypass -Command \"$d=[Console]::In.ReadToEnd(); if ($d.Trim().Length -gt 0) { Add-Content -LiteralPath (Join-Path $env:USERPROFILE '.wb-switch\\hook-events.jsonl') -Value $d.TrimEnd() -Encoding UTF8 }\"\r\necho {}\r\n");
            reveal_strlit("Add-Content -LiteralPath (Join-Path $env:USERPROFILE '.wb-switch\\hook-events.jsonl') -Value $d");
            reveal_strlit("echo {}\r\n");
            let part =
                "Add-Content -LiteralPath (Join-Path $env:USERPROFILE '.wb-switch\\hook-events.jsonl') -Value $d"@;
            assert(body.subrange(127, (127 + part.len()) as int) =~= part);
            assert(text::occurs_at(body, part, 127));
            assert(body.skip(body.len() - 9) =~= "echo {}\r\n"@);
        },
    }
}

/// When the switcher's entries are taken out, an event that has no other goes with them, and one
/// that has keeps the others; other events and what is no list stay as they are.
pub proof fn law_emptied_event_goes(
    hooks: Map<Seq<char>, JsonView>,
    event: Seq<char>,
    list: Seq<JsonView>,
    marker: Seq<char>,
    key: Seq<char>,
)
    ensures
        ({
            let left = JsonView::Object(event_cleaned(hooks, event, marker));
            &&& hooks.contains_pair(event, JsonView::Array(list)) && (forall|i: int|
                0 <= i < list.len() ==> is_ours(#[trigger] list[i], marker)) ==> json::field(
                left,
                event,
            ) is None
            &&& hooks.contains_pair(event, JsonView::Array(list)) && others(list, marker).len() > 0
                ==> json::field(left, event) == Some(JsonView::Array(others(list, marker)))
            &&& key != event ==> json::field(left, key) == json::field(JsonView::Object(hooks), key)
            &&& hooks.contains_key(event) && !(hooks[event] is Array) ==> left == JsonView::Object(
                hooks,
            )
            &&& !hooks.contains_key(event) ==> left == JsonView::Object(hooks)
        }),
{
    if forall|i: int| 0 <= i < list.len() ==> is_ours(#[trigger] list[i], marker) {
        lemma_no_others(list, marker);
    }
}

proof fn lemma_no_others(list: Seq<JsonView>, marker: Seq<char>)
    requires
        forall|i: int| 0 <= i < list.len() ==> is_ours(#[trigger] list[i], marker),
    ensures
        others(list, marker).len() == 0,
    decreases list.len(),
{
    if list.len() > 0 {
        assert(is_ours(list[list.len() - 1], marker));
        let front = list.drop_last();
        assert forall|i: int| 0 <= i < front.len() implies is_ours(#[trigger] front[i], marker) by {
            assert(front[i] == list[i]);
        }
        lemma_no_others(front, marker);
    }
}

/// The switcher's entries are taken out of both events, and the hooks go where none is left; every
/// other key stays, and settings without hooks stay as they are.
pub proof fn law_emptied_hooks_go(
    root: Map<Seq<char>, JsonView>,
    hooks: Map<Seq<char>, JsonView>,
    marker: Seq<char>,
    key: Seq<char>,
)
    ensures
        ({
            let left = cleaned(JsonView::Object(root), marker);
            let rest = event_cleaned(event_cleaned(hooks, "Stop"@, marker), "FinalStop"@, marker);
            &&& root.contains_pair("hooks"@, JsonView::Object(hooks)) ==> json::field(
                left,
                "hooks"@,
            ) == if rest == Map::<Seq<char>, JsonView>::empty() {
                None
            } else {
                Some(JsonView::Object(rest))
            }
            &&& key != "hooks"@ ==> json::field(left, key) == json::field(
                JsonView::Object(root),
                key,
            )
            &&& !root.contains_key("hooks"@) ==> left == JsonView::Object(root)
            &&& root.contains_key("hooks"@) && !(root["hooks"@] is Object) ==> left
                == JsonView::Object(root)
        }),
{
}

} // verus!
