use std::collections::HashMap;
use wb_switch_core::hook_plan::{
    combined_errors, hook_status, install_target, is_installed, target_status, uninstall_target,
    BackupAction, Kept, SettingsAction,
};
use wb_switch_core::json::{parse_json, pretty, Json};
use wb_switch_core::path::{FilePath, PathStyle};
use wb_switch_core::rate_limit_hook::{
    config_has_marker, entry_is_ours, events_path, hook_command, install_entries, script_body,
    script_is_ours, script_kind, script_name, shell_quote, HookLayout, HookTarget, ScriptKind, EVENTS_FILE_NAME,
    STORE_DIR_NAME,
};

/// A home directory held in memory: each file's text by its path.
struct Home {
    layout: HookLayout,
    files: HashMap<String, String>,
}

impl Home {
    fn new() -> Self {
        Home::at("/home/u")
    }

    fn at(home: &str) -> Self {
        Home {
            layout: HookLayout::under(&FilePath::new(home, PathStyle::Unix)),
            files: HashMap::new(),
        }
    }

    fn target(&self, label: &str) -> &HookTarget {
        self.layout
            .targets
            .iter()
            .find(|target| target.label == label)
            .expect("the target exists")
    }

    fn settings(&self, label: &str) -> String {
        self.target(label).settings.text.clone()
    }

    fn read(&self, label: &str) -> Option<String> {
        self.files.get(&self.settings(label)).cloned()
    }

    fn root(&self, label: &str) -> Json {
        parse_json(&self.read(label).expect("the settings exist")).expect("JSON")
    }

    fn write(&mut self, label: &str, content: &str) {
        let path = self.settings(label);
        self.files.insert(path, content.to_string());
    }

    fn kept(&self, target: &HookTarget) -> Kept {
        let backup = self.layout.backup_path(target).text;
        Kept {
            backup: self.files.get(&backup).cloned(),
            backup_exists: self.files.contains_key(&backup),
            absent_mark: self
                .files
                .contains_key(&self.layout.absent_mark_path(target).text),
        }
    }

    fn apply(&mut self, path: String, action: SettingsAction) {
        match action {
            SettingsAction::Keep => {}
            SettingsAction::Write(content) => {
                self.files.insert(path, content);
            }
            SettingsAction::Remove => {
                self.files.remove(&path);
            }
        }
    }

    fn status(&self) -> Json {
        let marker = &self.layout.script.text;
        let states = self
            .layout
            .targets
            .iter()
            .map(|target| {
                let text = self.files.get(&target.settings.text).cloned();
                target_status(text.is_some(), &text, marker)
            })
            .collect();
        hook_status(&self.layout, self.files.contains_key(marker), &states)
    }

    fn install(&mut self) -> Result<Json, String> {
        let kind = script_kind(PathStyle::Unix);
        let marker = self.layout.script.text.clone();
        self.files
            .insert(marker.clone(), script_body(kind).to_string());
        let command = hook_command(&marker, kind);
        let mut errors = Vec::new();
        for i in 0..self.layout.targets.len() {
            let target = &self.layout.targets[i];
            let path = target.settings.text.clone();
            let original = self.files.get(&path).cloned();
            let backup = self.layout.backup_path(target).text;
            let mark = self.layout.absent_mark_path(target).text;
            let plan = install_target(&original, &command, &marker, &self.kept(target));
            match plan {
                Err(error) => errors.push((path, error)),
                Ok(plan) => {
                    match plan.backup {
                        BackupAction::Keep => {}
                        BackupAction::MarkAbsent => {
                            self.files.insert(mark, String::new());
                        }
                        BackupAction::Write(content) => {
                            self.files.insert(backup, content);
                        }
                    }
                    match plan.settings {
                        Ok(action) => self.apply(path, action),
                        Err(error) => errors.push((path, error)),
                    }
                }
            }
        }
        match combined_errors(&errors) {
            Some(error) => Err(error),
            None => Ok(self.status()),
        }
    }

    fn uninstall(&mut self) -> Json {
        let marker = self.layout.script.text.clone();
        for i in 0..self.layout.targets.len() {
            let target = &self.layout.targets[i];
            let path = target.settings.text.clone();
            let original = self.files.get(&path).cloned();
            let action = uninstall_target(&original, &marker, &self.kept(target));
            self.apply(path, action);
        }
        let script = self.files.get(&marker).cloned();
        if script_is_ours(&script, script_kind(PathStyle::Unix)) {
            self.files.remove(&marker);
        }
        self.status()
    }
}

fn at<'a>(json: &'a Json, key: &str) -> &'a Json {
    json.get(key).expect("the key is there")
}

fn items(json: &Json) -> &Vec<Json> {
    match json {
        Json::Array(items) => items,
        _ => panic!("an array"),
    }
}

fn fields(json: &Json) -> &Vec<(String, Json)> {
    match json {
        Json::Object(fields) => fields,
        _ => panic!("an object"),
    }
}

fn command_of(entry: &Json) -> String {
    items(at(entry, "hooks"))[0]
        .get_text("command")
        .expect("a command")
}

#[test]
fn script_body_appends_payload_and_always_returns_empty_object() {
    let sh = script_body(ScriptKind::Sh);
    assert!(sh.contains("hook-events.jsonl"), "{sh}");
    assert!(sh.trim_end().ends_with("printf '{}'"), "{sh}");

    let cmd = script_body(ScriptKind::Cmd);
    assert!(cmd.contains("hook-events.jsonl"), "{cmd}");
    assert!(cmd.trim_end().ends_with("echo {}"), "{cmd}");
}

#[test]
fn hook_command_quotes_the_script_path() {
    let path = "/Users/a b/.wb-switch/hook.sh";
    assert_eq!(
        hook_command(path, ScriptKind::Sh),
        "sh '/Users/a b/.wb-switch/hook.sh'"
    );
    assert_eq!(
        hook_command(path, ScriptKind::Cmd),
        "cmd /c \"/Users/a b/.wb-switch/hook.sh\""
    );
    assert_eq!(shell_quote("it's"), "'it'\\''s'");
}

#[test]
fn install_is_idempotent_and_preserves_third_party_hooks() {
    let mut home = Home::new();
    home.write(
        "codebuddy",
        r#"{
  "hooks": {
    "PreToolUse": [
      {
        "hooks": [
          {
            "command": "echo tool",
            "type": "command"
          }
        ],
        "matcher": "Bash"
      }
    ],
    "Stop": [
      {
        "hooks": [
          {
            "command": "echo user",
            "type": "command"
          }
        ],
        "matcher": ""
      }
    ]
  },
  "model": "deepseek-v4.1-flash"
}"#,
    );

    home.install().expect("installed");
    let once = home.read("codebuddy");
    home.install().expect("installed");
    assert_eq!(home.read("codebuddy"), once);

    let root = home.root("codebuddy");
    let hooks = at(&root, "hooks");
    let stop = items(at(hooks, "Stop"));
    assert_eq!(stop.len(), 2, "{stop:?}");
    assert_eq!(command_of(&stop[0]), "echo user");
    assert!(command_of(&stop[1]).contains("hook.sh"));
    assert_eq!(items(at(hooks, "FinalStop")).len(), 1);
    assert_eq!(items(at(hooks, "PreToolUse")).len(), 1);
    assert_eq!(
        root.get_text("model").as_deref(),
        Some("deepseek-v4.1-flash")
    );
    assert_eq!(fields(hooks).len(), 3);
}

#[test]
fn uninstall_restores_the_settings_file_byte_for_byte() {
    let content = r#"{"language":"简体中文","hooks":{"Stop":[{"matcher":"x","hooks":[{"type":"command","command":"echo keep"}]}]},"model":"hy3"}"#;
    let labels = ["codebuddy", "workbuddy", "workbuddy-ai"];
    let mut home = Home::new();
    for label in labels {
        home.write(label, content);
    }

    home.install().expect("installed");
    assert!(config_has_marker(
        &home.root("codebuddy"),
        &home.layout.script.text
    ));

    home.uninstall();
    for label in labels {
        assert_eq!(home.read(label).as_deref(), Some(content), "{label}");
    }
    assert!(!home.files.contains_key(&home.layout.script.text));
}

#[test]
fn uninstall_keeps_changes_the_user_made_after_install() {
    let mut home = Home::new();
    home.write("codebuddy", "{}");
    home.install().expect("installed");

    let root = home.root("codebuddy");
    let mut changed = fields(&root)
        .iter()
        .map(|(key, value)| (key.clone(), value.copy()))
        .collect::<Vec<_>>();
    changed.push((
        "statusLine".to_string(),
        Json::Object(vec![("type".to_string(), Json::Text("command".to_string()))]),
    ));
    home.write("codebuddy", &pretty(&Json::Object(changed)));

    home.uninstall();
    let root = home.root("codebuddy");
    assert_eq!(
        at(&root, "statusLine").get_text("type").as_deref(),
        Some("command")
    );
    assert!(!config_has_marker(&root, &home.layout.script.text));
    assert!(root.get("hooks").is_none());
}

#[test]
fn install_creates_missing_settings_and_uninstall_removes_them_again() {
    let mut home = Home::new();
    assert!(home.read("workbuddy").is_none());

    home.install().expect("installed");
    assert!(config_has_marker(
        &home.root("workbuddy"),
        &home.layout.script.text
    ));

    home.uninstall();
    assert!(home.read("workbuddy").is_none());

    home.install().expect("installed");
    home.install().expect("installed again");
    home.uninstall();
    assert!(home.read("workbuddy").is_none());
}

#[test]
fn malformed_settings_are_left_untouched() {
    let mut home = Home::new();
    home.write("workbuddy", "{ not json");
    home.write("codebuddy", "{}");

    let error = home.install().expect_err("not JSON");
    assert!(error.contains("workbuddy"), "{error}");
    assert_eq!(home.read("workbuddy").as_deref(), Some("{ not json"));
    assert!(config_has_marker(
        &home.root("codebuddy"),
        &home.layout.script.text
    ));
    home.uninstall();
    assert_eq!(home.read("workbuddy").as_deref(), Some("{ not json"));
}

#[test]
fn malformed_hooks_shape_is_reported_without_overwriting() {
    let shapes = [
        (r#"{"hooks":["not-an-object"]}"#, "`hooks` 不是 JSON 对象"),
        (r#"["hooks"]"#, "配置根节点不是 JSON 对象"),
        (r#"{"hooks":{"Stop":1}}"#, "`hooks.Stop` 不是数组"),
    ];
    for (content, words) in shapes {
        let mut home = Home::new();
        home.write("codebuddy", content);
        let error = home.install().expect_err("a wrong shape");
        assert!(error.contains("hooks") || words.contains("根节点"), "{error}");
        assert!(error.contains(words), "{error}");
        assert_eq!(home.read("codebuddy").as_deref(), Some(content));
    }
}

#[test]
fn status_tracks_the_marker_and_the_script() {
    let mut home = Home::new();
    let status = home.status();
    assert_eq!(at(&status, "installed"), &Json::Bool(false));
    assert_eq!(at(&status, "scriptExists"), &Json::Bool(false));
    assert_eq!(items(at(&status, "targets")).len(), 3);

    home.install().expect("installed");
    let status = home.status();
    assert_eq!(at(&status, "installed"), &Json::Bool(true));
    assert!(is_installed(&status));
    assert_eq!(at(&status, "scriptExists"), &Json::Bool(true));
    for target in items(at(&status, "targets")) {
        assert_eq!(at(target, "installed"), &Json::Bool(true), "{target:?}");
        assert_eq!(at(target, "exists"), &Json::Bool(true), "{target:?}");
    }

    let codebuddy = home.settings("codebuddy");
    home.files.remove(&codebuddy);
    assert_eq!(at(&home.status(), "installed"), &Json::Bool(true));
    for label in ["workbuddy", "workbuddy-ai"] {
        let path = home.settings(label);
        home.files.remove(&path);
    }
    assert_eq!(at(&home.status(), "installed"), &Json::Bool(false));
    assert!(!is_installed(&home.status()));
    assert!(!is_installed(&Json::Null));
}

#[test]
fn events_path_lives_in_the_store_directory() {
    let home = FilePath::new("/home/u", PathStyle::Unix);
    assert!(events_path(&home).text.ends_with(EVENTS_FILE_NAME));
    assert!(events_path(&home).text.contains(STORE_DIR_NAME));
    assert_eq!(
        events_path(&home).text,
        "/home/u/.wb-switch/hook-events.jsonl"
    );
}

#[test]
fn layout_follows_the_platform() {
    let layout = HookLayout::under(&FilePath::new("C:\\Users\\u", PathStyle::Windows));
    assert_eq!(layout.script.text, "C:\\Users\\u\\.wb-switch\\hook.cmd");
    assert_eq!(script_name(ScriptKind::Sh), "hook.sh");
    assert_eq!(
        layout.targets[2].settings.text,
        "C:\\Users\\u\\.workbuddy-ai\\settings.json"
    );
    assert_eq!(
        layout.backup_path(&layout.targets[0]).text,
        "C:\\Users\\u\\.wb-switch\\hook-backups\\codebuddy.settings.json"
    );
    assert_eq!(
        layout.absent_mark_path(&layout.targets[0]).text,
        "C:\\Users\\u\\.wb-switch\\hook-backups\\codebuddy.settings.json.absent"
    );
}

#[test]
fn an_entry_is_ours_by_its_command() {
    let entry = |kind: &str, command: &str| {
        parse_json(&format!(
            "{{\"hooks\":[{{\"type\":\"{kind}\",\"command\":\"{command}\"}}]}}"
        ))
        .expect("JSON")
    };
    assert!(entry_is_ours(&entry("command", "sh '/m/hook.sh'"), "/m/hook.sh"));
    assert!(!entry_is_ours(&entry("prompt", "sh '/m/hook.sh'"), "/m/hook.sh"));
    assert!(!entry_is_ours(&entry("command", "sh '/n/hook.sh'"), "/m/hook.sh"));
    assert!(!entry_is_ours(&Json::Null, "/m/hook.sh"));
}

#[test]
fn a_changed_baseline_replaces_the_backup() {
    let marker = "/m/hook.sh";
    let kept = |backup: Option<&str>| Kept {
        backup: backup.map(str::to_string),
        backup_exists: backup.is_some(),
        absent_mark: false,
    };
    let plan = |original: Option<&str>, backup: Option<&str>| {
        install_target(
            &original.map(str::to_string),
            "sh '/m/hook.sh'",
            marker,
            &kept(backup),
        )
        .expect("JSON")
        .backup
    };
    assert_eq!(plan(Some("{\"a\":1}"), Some("{ \"a\": 1 }")), BackupAction::Keep);
    assert_eq!(
        plan(Some("{\"a\":1}"), Some("{\"a\":2}")),
        BackupAction::Write("{\"a\":1}".to_string())
    );
    assert_eq!(
        plan(Some("{\"note\":\"/m/hook.sh\"}"), None),
        BackupAction::Write("{\n  \"note\": \"/m/hook.sh\"\n}".to_string())
    );
    assert_eq!(plan(None, None), BackupAction::MarkAbsent);
    assert_eq!(plan(None, Some("{}")), BackupAction::Keep);
}

#[test]
fn text_is_read_and_printed_by_the_json_crate() {
    assert_eq!(parse_json("{ not json"), None);
    let value = parse_json("{\"b\":[1,-2,1.5,null,true],\"a\":\"é\"}").expect("JSON");
    assert_eq!(
        value,
        Json::Object(vec![
            ("a".to_string(), Json::Text("é".to_string())),
            (
                "b".to_string(),
                Json::Array(vec![
                    Json::Unsigned(1),
                    Json::Negative(-2),
                    Json::Float("1.5".to_string()),
                    Json::Null,
                    Json::Bool(true),
                ])
            ),
        ])
    );
    let printed = pretty(&value);
    assert_eq!(
        printed,
        "{\n  \"a\": \"é\",\n  \"b\": [\n    1,\n    -2,\n    1.5,\n    null,\n    true\n  ]\n}"
    );
    assert_eq!(parse_json(&printed), Some(value));
}

#[test]
fn several_errors_are_joined() {
    let pair = |path: &str, error: &str| (path.to_string(), error.to_string());
    assert_eq!(combined_errors(&Vec::new()), None);
    assert_eq!(
        combined_errors(&vec![pair("a", "x"), pair("b", "y")]).as_deref(),
        Some("a：x；b：y")
    );
}

#[test]
fn settings_with_empty_hooks_come_back_byte_for_byte() {
    let texts = [
        "{\"hooks\":{}}",
        "{\"hooks\":{\"Stop\":[]}}",
        "{\"hooks\": {\"FinalStop\": [], \"Stop\": []}, \"model\":\"hy3\"}",
        "{\"hooks\":{\"Stop\":[],\"PreToolUse\":[]}}",
        "{}",
    ];
    for content in texts {
        let mut home = Home::at("/h");
        home.write("codebuddy", content);
        home.install().expect("installed");
        home.install().expect("installed again");
        home.uninstall();
        assert_eq!(home.read("codebuddy").as_deref(), Some(content));

        home.write("codebuddy", "{ }");
        home.install().expect("installed");
        home.uninstall();
        let expected = if content == "{}" { "{}" } else { "{ }" };
        assert_eq!(home.read("codebuddy").as_deref(), Some(expected));
    }
}

#[test]
fn a_quote_in_the_path_is_known_again() {
    for kind in [ScriptKind::Sh, ScriptKind::Cmd] {
        let command = hook_command("/o'k/.wb-switch/hook.sh", kind);
        let root = install_entries(&Json::Object(Vec::new()), &command, "/o'k/.wb-switch/hook.sh")
            .expect("installed");
        assert!(config_has_marker(&root, "/o'k/.wb-switch/hook.sh"));
    }

    let mut home = Home::at("/o'k");
    home.write("codebuddy", "{}");
    home.install().expect("installed");
    let once = home.read("codebuddy");
    let status = home.install().expect("installed again");
    assert_eq!(home.read("codebuddy"), once);
    assert!(is_installed(&status));
    let root = home.root("codebuddy");
    let hooks = at(&root, "hooks");
    assert_eq!(items(at(hooks, "Stop")).len(), 1);
    assert_eq!(items(at(hooks, "FinalStop")).len(), 1);
    home.uninstall();
    assert_eq!(home.read("codebuddy").as_deref(), Some("{}"));
    assert!(home.read("workbuddy").is_none());
}

#[test]
fn a_copy_that_holds_our_entries_is_not_written_back() {
    let marker = "/o'k/hook.sh";
    let command = hook_command(marker, ScriptKind::Sh);
    let installed = pretty(
        &install_entries(&parse_json("{\"a\":1}").expect("JSON"), &command, marker)
            .expect("installed"),
    );
    let kept = Kept {
        backup: Some(installed.clone()),
        backup_exists: true,
        absent_mark: false,
    };
    assert_eq!(
        uninstall_target(&Some(installed.clone()), marker, &kept),
        SettingsAction::Write("{\n  \"a\": 1\n}".to_string())
    );
    assert_eq!(
        install_target(&Some(installed), &command, marker, &kept)
            .expect("JSON")
            .backup,
        BackupAction::Write("{\n  \"a\": 1\n}".to_string())
    );
}

#[test]
fn hooks_that_the_user_took_out_are_not_put_back() {
    let kept = |backup: &str| Kept {
        backup: Some(backup.to_string()),
        backup_exists: true,
        absent_mark: false,
    };
    let uninstall = |text: &str, backup: &str| {
        uninstall_target(&Some(text.to_string()), "/m/hook.sh", &kept(backup))
    };
    assert_eq!(uninstall("{}", "{\"hooks\":{}}"), SettingsAction::Keep);
    assert_eq!(
        uninstall("{ }", "{\"hooks\":{\"Stop\":[]}}"),
        SettingsAction::Write("{}".to_string())
    );
    assert_eq!(
        uninstall("{\"a\":1}", "{ \"a\": 1 }"),
        SettingsAction::Write("{ \"a\": 1 }".to_string())
    );
}

/// Reads a word as a POSIX shell does, as far as single quotes and backslashes go.
fn shell_reads(word: &str) -> Option<String> {
    let mut out = String::new();
    let mut within = false;
    let mut chars = word.chars();
    while let Some(c) = chars.next() {
        match c {
            '\'' => within = !within,
            '\\' if !within => out.push(chars.next()?),
            c => out.push(c),
        }
    }
    if within {
        None
    } else {
        Some(out)
    }
}

#[test]
fn quoted_words_read_back() {
    for word in ["", "a b", "it's", "''", "\\'", "/o'k/.wb-switch/hook.sh", "$HOME \"x\" \n"] {
        let quoted = shell_quote(word);
        assert!(quoted.starts_with('\'') && quoted.ends_with('\''));
        assert_eq!(shell_reads(&quoted).as_deref(), Some(word));
    }
    assert_ne!(shell_quote("'"), shell_quote("''"));
}
